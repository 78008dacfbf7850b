use crate::codec::{compress, decompress, zlib_deflate, zlib_inflate};
use crate::error::ObjectError;
use crate::hash::{compute_sha1, hex_encoding, sha1_of};
use vstd::prelude::*;
use vstd::string::{StrSliceExecFns, StringSliceAdditionalSpecFns};
use vstd::utf8::{
    encode_utf8, encode_utf8_valid_utf8, is_char_boundary,
    is_char_boundary_iff_not_is_continuation_byte,
};

verus! {

/// The three kinds of stored object.
#[derive(Debug, Clone, Copy, PartialEq, Eq, Structural)]
pub enum ObjectKind {
    Blob,
    Tree,
    Commit,
}

/// The ASCII tag that names a kind in an object header.
pub open spec fn kind_tag(k: ObjectKind) -> Seq<u8> {
    match k {
        ObjectKind::Blob => seq![98u8, 108u8, 111u8, 98u8],
        ObjectKind::Tree => seq![116u8, 114u8, 101u8, 101u8],
        ObjectKind::Commit => seq![99u8, 111u8, 109u8, 109u8, 105u8, 116u8],
    }
}

/// The decimal ASCII text of a natural number, without leading zeros.
pub open spec fn decimal(n: nat) -> Seq<u8>
    decreases n,
{
    if n < 10 {
        seq![(48 + n) as u8]
    } else {
        decimal((n / 10) as nat).push((48 + n % 10) as u8)
    }
}

/// The canonical frame of an object: `"<type> <decimal-length>\0<payload>"`.
pub open spec fn framed(k: ObjectKind, payload: Seq<u8>) -> Seq<u8> {
    kind_tag(k) + seq![32u8] + decimal(payload.len()) + seq![0u8] + payload
}

/// The address of an object: the digest of its whole frame.
pub open spec fn object_address(k: ObjectKind, payload: Seq<u8>) -> Seq<u8> {
    sha1_of(framed(k, payload))
}

impl ObjectKind {
    /// The header tag of this kind.
    pub fn tag(&self) -> (r: Vec<u8>)
        ensures
            r@ == kind_tag(*self),
    {
        let r = match self {
            ObjectKind::Blob => vec![98u8, 108u8, 111u8, 98u8],
            ObjectKind::Tree => vec![116u8, 114u8, 101u8, 101u8],
            ObjectKind::Commit => vec![99u8, 111u8, 109u8, 109u8, 105u8, 116u8],
        };
        assert(r@ =~= kind_tag(*self));
        r
    }

    /// The kind whose tag is exactly `t`, if any.
    pub fn from_tag(t: &[u8]) -> (r: Option<ObjectKind>)
        ensures
            r is Some ==> kind_tag(r->0) == t@,
            r is None ==> forall|k: ObjectKind| kind_tag(k) != t@,
    {
        let kinds = [ObjectKind::Blob, ObjectKind::Tree, ObjectKind::Commit];
        let mut i: usize = 0;
        while i < 3
            invariant
                0 <= i <= 3,
                kinds@ == seq![ObjectKind::Blob, ObjectKind::Tree, ObjectKind::Commit],
                forall|j: int| 0 <= j < i ==> kind_tag(#[trigger] kinds@[j]) != t@,
            decreases 3 - i,
        {
            let k = kinds[i];
            let tag = k.tag();
            if bytes_equal(tag.as_slice(), t) {
                return Some(k);
            }
            i = i + 1;
        }
        proof {
            assert forall|k: ObjectKind| kind_tag(k) != t@ by {
                match k {
                    ObjectKind::Blob => assert(kinds@[0] == k),
                    ObjectKind::Tree => assert(kinds@[1] == k),
                    ObjectKind::Commit => assert(kinds@[2] == k),
                }
            }
        }
        None
    }
}

/// Whether two byte buffers hold the same bytes.
pub fn bytes_equal(a: &[u8], b: &[u8]) -> (r: bool)
    ensures
        r == (a@ == b@),
{
    if a.len() != b.len() {
        return false;
    }
    let mut i: usize = 0;
    while i < a.len()
        invariant
            a@.len() == b@.len(),
            0 <= i <= a@.len(),
            forall|j: int| 0 <= j < i ==> a@[j] == b@[j],
        decreases a@.len() - i,
    {
        if a[i] != b[i] {
            return false;
        }
        i = i + 1;
    }
    assert(a@ =~= b@);
    true
}

/// The decimal ASCII text of `n`.
pub fn decimal_bytes(n: usize) -> (r: Vec<u8>)
    ensures
        r@ == decimal(n as nat),
    decreases n,
{
    if n < 10 {
        let r = vec![(48 + n) as u8];
        assert(r@ =~= decimal(n as nat));
        r
    } else {
        let mut r = decimal_bytes(n / 10);
        r.push((48 + n % 10) as u8);
        r
    }
}

/// Decimal text holds ASCII digits only.
pub proof fn lemma_decimal_digits(n: nat)
    ensures
        decimal(n).len() >= 1,
        forall|i: int| 0 <= i < decimal(n).len() ==> 48 <= #[trigger] decimal(n)[i] <= 57,
    decreases n,
{
    if n >= 10 {
        lemma_decimal_digits((n / 10) as nat);
    }
}

/// Position of the first `b` in `s`, or `s.len()` where there is none.
pub open spec fn index_of<A>(s: Seq<A>, b: A) -> nat
    decreases s.len(),
{
    if s.len() == 0 {
        0
    } else if s[0] == b {
        0
    } else {
        1 + index_of(s.drop_first(), b)
    }
}

/// The first `b` in `s` stands at `k` when none stands before it.
pub proof fn lemma_index_of<A>(s: Seq<A>, b: A, k: int)
    requires
        0 <= k <= s.len(),
        forall|j: int| 0 <= j < k ==> s[j] != b,
        k == s.len() || s[k] == b,
    ensures
        index_of(s, b) == k,
    decreases k,
{
    if k > 0 {
        lemma_index_of(s.drop_first(), b, k - 1);
    }
}

/// No `b` stands before `index_of(s, b)`, and `b` stands there unless it is
/// the end of `s`.
pub proof fn lemma_index_of_found<A>(s: Seq<A>, b: A)
    ensures
        index_of(s, b) <= s.len(),
        forall|j: int| 0 <= j < index_of(s, b) ==> s[j] != b,
        index_of(s, b) < s.len() ==> s[index_of(s, b) as int] == b,
    decreases s.len(),
{
    if s.len() > 0 && s[0] != b {
        lemma_index_of_found(s.drop_first(), b);
        assert forall|j: int| 0 <= j < index_of(s, b) implies s[j] != b by {
            if j > 0 {
                assert(s[j] == s.drop_first()[j - 1]);
            }
        }
    }
}

/// Builds the canonical frame of an object.
pub fn frame_object(kind: ObjectKind, payload: &[u8]) -> (r: Vec<u8>)
    ensures
        r@ == framed(kind, payload@),
{
    let mut r = kind.tag();
    r.push(32u8);
    let digits = decimal_bytes(payload.len());
    r.extend_from_slice(digits.as_slice());
    r.push(0u8);
    r.extend_from_slice(payload);
    assert(r@ =~= framed(kind, payload@));
    r
}

/// Where the parts of a frame lie: the tag holds no space and no NUL, the
/// length digits hold no NUL, so the first NUL ends the header and the first
/// space ends the tag.
proof fn lemma_frame_layout(k: ObjectKind, p: Seq<u8>)
    ensures
        ({
            let f = framed(k, p);
            let t = kind_tag(k).len() as int;
            let z = t + 1 + decimal(p.len()).len() as int;
            &&& z < f.len()
            &&& f[z] == 0
            &&& forall|j: int| 0 <= j < z ==> #[trigger] f[j] != 0
            &&& f[t] == 32
            &&& forall|j: int| 0 <= j < t ==> #[trigger] f[j] != 32
            &&& f.subrange(0, t) == kind_tag(k)
            &&& f.subrange(t + 1, z) == decimal(p.len())
            &&& f.len() - z - 1 == p.len()
            &&& f.subrange(z + 1, f.len() as int) == p
        }),
{
    let f = framed(k, p);
    let tag = kind_tag(k);
    let d = decimal(p.len());
    lemma_decimal_digits(p.len());
    let t = tag.len() as int;
    let z = t + 1 + d.len() as int;
    assert(f.subrange(0, t) =~= tag);
    assert(f.subrange(t + 1, z) =~= d);
    assert(f.subrange(z + 1, f.len() as int) =~= p);
    assert forall|j: int| 0 <= j < t implies #[trigger] f[j] != 32 && f[j] != 0 by {
        assert(f[j] == tag[j]);
    }
    assert forall|j: int| 0 <= j < z implies #[trigger] f[j] != 0 by {
        if j < t {
            assert(f[j] == tag[j]);
        } else if j > t {
            assert(f[j] == d[j - t - 1]);
        }
    }
}

/// Splits a frame into its kind and payload. The header must name a known
/// kind and give the payload's exact length in canonical decimal.
pub fn parse_frame(data: &[u8]) -> (r: Result<(ObjectKind, Vec<u8>), ObjectError>)
    ensures
        r is Ok ==> data@ == framed(r->Ok_0.0, r->Ok_0.1@),
        r is Err ==> r->Err_0 == ObjectError::CorruptHeader,
        r is Err ==> forall|k: ObjectKind, p: Seq<u8>| data@ != #[trigger] framed(k, p),
{
    let n = data.len();
    let mut nul: usize = 0;
    while nul < n && data[nul] != 0
        invariant
            n == data@.len(),
            0 <= nul <= n,
            forall|j: int| 0 <= j < nul ==> data@[j] != 0,
        decreases n - nul,
    {
        nul = nul + 1;
    }
    if nul == n {
        proof {
            assert forall|k: ObjectKind, p: Seq<u8>| data@ != #[trigger] framed(k, p) by {
                if data@ == framed(k, p) {
                    lemma_frame_layout(k, p);
                }
            }
        }
        return Err(ObjectError::CorruptHeader);
    }
    let mut sp: usize = 0;
    while sp < nul && data[sp] != 32
        invariant
            n == data@.len(),
            nul < n,
            0 <= sp <= nul,
            forall|j: int| 0 <= j < sp ==> data@[j] != 32,
        decreases nul - sp,
    {
        sp = sp + 1;
    }
    if sp == nul {
        proof {
            assert forall|k: ObjectKind, p: Seq<u8>| data@ != #[trigger] framed(k, p) by {
                if data@ == framed(k, p) {
                    lemma_frame_layout(k, p);
                    let z = kind_tag(k).len() as int + 1 + decimal(p.len()).len() as int;
                    assert(data@[z] == 0);
                    if z > nul {
                        assert(data@[nul as int] != 0);
                    }
                    assert(data@[kind_tag(k).len() as int] == 32);
                }
            }
        }
        return Err(ObjectError::CorruptHeader);
    }
    let kind = match ObjectKind::from_tag(&data[0..sp]) {
        Some(k) => k,
        None => {
            proof {
                assert forall|k: ObjectKind, p: Seq<u8>| data@ != #[trigger] framed(k, p) by {
                    if data@ == framed(k, p) {
                        lemma_frame_layout(k, p);
                        let t = kind_tag(k).len() as int;
                        let z = t + 1 + decimal(p.len()).len() as int;
                        assert(data@[z] == 0);
                        if z > nul {
                            assert(data@[nul as int] != 0);
                        }
                        if t > sp {
                            assert(data@[sp as int] != 32);
                        }
                        assert(data@[t] == 32);
                        assert(data@.subrange(0, sp as int) == kind_tag(k));
                    }
                }
            }
            return Err(ObjectError::CorruptHeader);
        },
    };
    let payload_len = n - nul - 1;
    let digits = decimal_bytes(payload_len);
    if !bytes_equal(&data[sp + 1..nul], digits.as_slice()) {
        proof {
            assert forall|k: ObjectKind, p: Seq<u8>| data@ != #[trigger] framed(k, p) by {
                if data@ == framed(k, p) {
                    lemma_frame_layout(k, p);
                    let t = kind_tag(k).len() as int;
                    let z = t + 1 + decimal(p.len()).len() as int;
                    assert(data@[z] == 0);
                    if z > nul {
                        assert(data@[nul as int] != 0);
                    }
                    if t > sp {
                        assert(data@[sp as int] != 32);
                    }
                    assert(data@[t] == 32);
                }
            }
        }
        return Err(ObjectError::CorruptHeader);
    }
    let mut payload: Vec<u8> = Vec::new();
    payload.extend_from_slice(&data[nul + 1..n]);
    assert(payload@ =~= data@.subrange(nul + 1, n as int));
    proof {
        let tag = kind_tag(kind);
        assert(data@.subrange(0, sp as int) == tag);
        assert(data@ =~= tag + seq![32u8] + decimal(payload_len as nat) + seq![0u8] + data@.subrange(nul + 1, n as int));
    }
    Ok((kind, payload))
}

/// Two frames are equal only when they have the same kind and payload.
pub proof fn lemma_frame_injective(k1: ObjectKind, p1: Seq<u8>, k2: ObjectKind, p2: Seq<u8>)
    requires
        framed(k1, p1) == framed(k2, p2),
    ensures
        k1 == k2,
        p1 == p2,
{
    lemma_frame_layout(k1, p1);
    lemma_frame_layout(k2, p2);
    let f = framed(k1, p1);
    let t1 = kind_tag(k1).len() as int;
    let t2 = kind_tag(k2).len() as int;
    let z1 = t1 + 1 + decimal(p1.len()).len() as int;
    let z2 = t2 + 1 + decimal(p2.len()).len() as int;
    if z1 < z2 {
        assert(f[z1] != 0);
    }
    if z2 < z1 {
        assert(f[z2] != 0);
    }
    if t1 < t2 {
        assert(f[t1] != 32);
    }
    if t2 < t1 {
        assert(f[t2] != 32);
    }
    assert(kind_tag(k1) == kind_tag(k2));
    match k1 {
        ObjectKind::Blob => {
            assert(kind_tag(k1)[0] == 98);
        },
        ObjectKind::Tree => {
            assert(kind_tag(k1)[0] == 116);
        },
        ObjectKind::Commit => {
            assert(kind_tag(k1)[0] == 99);
        },
    }
    match k2 {
        ObjectKind::Blob => {
            assert(kind_tag(k2)[0] == 98);
        },
        ObjectKind::Tree => {
            assert(kind_tag(k2)[0] == 116);
        },
        ObjectKind::Commit => {
            assert(kind_tag(k2)[0] == 99);
        },
    }
}

/// An object ready to be written to storage: its address and its compressed
/// frame.
pub struct StoredObject {
    pub hash: crate::hash::Hash,
    pub compressed: Vec<u8>,
}

/// `r` holds the address and the compressed frame of the object of kind `k`
/// with payload `p`.
pub open spec fn prepared(r: StoredObject, k: ObjectKind, p: Seq<u8>) -> bool {
    &&& r.hash@ == object_address(k, p)
    &&& r.compressed@ == zlib_deflate(framed(k, p))
}

/// Storing the same kind and payload twice gives the same address and the
/// same stored bytes, hence one object at one location.
pub proof fn lemma_store_idempotent(r1: StoredObject, r2: StoredObject, k: ObjectKind, p: Seq<u8>)
    requires
        prepared(r1, k, p),
        prepared(r2, k, p),
    ensures
        r1.hash@ == r2.hash@,
        r1.compressed@ == r2.compressed@,
{
}

/// Frames a payload, computes its address and compresses the frame.
pub fn prepare_object(kind: ObjectKind, payload: &[u8]) -> (r: StoredObject)
    ensures
        prepared(r, kind, payload@),
{
    let frame = frame_object(kind, payload);
    let hash = compute_sha1(frame.as_slice());
    let compressed = compress(frame.as_slice());
    StoredObject { hash, compressed }
}

/// Prepares a file's contents as a blob object.
pub fn create_blob(contents: &[u8]) -> (r: StoredObject)
    ensures
        prepared(r, ObjectKind::Blob, contents@),
{
    prepare_object(ObjectKind::Blob, contents)
}

/// Prepares a commit's text as a commit object.
pub fn write_commit_object(commit_data: &str) -> (r: StoredObject)
    ensures
        prepared(r, ObjectKind::Commit, commit_data.spec_bytes()),
{
    prepare_object(ObjectKind::Commit, commit_data.as_bytes())
}

/// Reads back an object from what storage holds at its address (`None`
/// where nothing is stored there): decompresses it and splits the frame.
pub fn read_object(stored: Option<&[u8]>) -> (r: Result<(ObjectKind, Vec<u8>), ObjectError>)
    ensures
        stored is None ==> r == Err::<(ObjectKind, Vec<u8>), ObjectError>(ObjectError::NotFound),
        stored is Some ==> (r == Err::<(ObjectKind, Vec<u8>), ObjectError>(ObjectError::CorruptData)
            <==> zlib_inflate(stored->0@) is None),
        r is Ok ==> stored is Some && zlib_inflate(stored->0@) == Some(
            framed(r->Ok_0.0, r->Ok_0.1@),
        ),
        r == Err::<(ObjectKind, Vec<u8>), ObjectError>(ObjectError::CorruptHeader) ==> stored is Some
            && zlib_inflate(stored->0@) is Some && forall|k: ObjectKind, p: Seq<u8>|
            zlib_inflate(stored->0@)->0 != #[trigger] framed(k, p),
        r is Err ==> r->Err_0 == ObjectError::NotFound || r->Err_0 == ObjectError::CorruptData
            || r->Err_0 == ObjectError::CorruptHeader,
        forall|k: ObjectKind, p: Seq<u8>|
            stored is Some && stored->0@ == zlib_deflate(#[trigger] framed(k, p)) ==> r is Ok
                && r->Ok_0.0 == k && r->Ok_0.1@ == p,
{
    match stored {
        None => Err(ObjectError::NotFound),
        Some(bytes) => {
            let frame = decompress(bytes)?;
            let r = parse_frame(frame.as_slice());
            proof {
                assert forall|k: ObjectKind, p: Seq<u8>|
                    bytes@ == zlib_deflate(#[trigger] framed(k, p)) implies r is Ok
                    && r->Ok_0.0 == k && r->Ok_0.1@ == p by {
                    assert(frame@ == framed(k, p));
                    lemma_frame_injective(r->Ok_0.0, r->Ok_0.1@, k, p);
                }
            }
            r
        },
    }
}

/// Where an object lives in storage: the first two hexadecimal digits of its
/// address name a group, the remaining 38 the item within it.
pub fn object_location(hash: &crate::hash::Hash) -> (r: (String, String))
    ensures
        encode_utf8(r.0@) == hex_encoding(hash@).subrange(0, 2),
        encode_utf8(r.1@) == hex_encoding(hash@).subrange(2, 40),
{
    let hex = hash.to_hex();
    proof {
        hash.lemma_len();
        let b = encode_utf8(hex@);
        encode_utf8_valid_utf8(hex@);
        is_char_boundary_iff_not_is_continuation_byte(b, 2);
        let x = hash@[1];
        assert(x / 16 < 16);
        assert(b[2] == crate::hash::hex_digit(x / 16));
        assert(is_char_boundary(b, 2));
    }
    let (group, item) = hex.as_str().split_at(2);
    (group.to_string(), item.to_string())
}

/// The text after the first NUL character of a decompressed object, that
/// is, its payload; `None` where the text holds no NUL.
pub fn extract_content(blob_file_contents: &str) -> (r: Option<&str>)
    ensures
        r is Some <==> index_of(blob_file_contents@, '\0') < blob_file_contents@.len(),
        r is Some ==> r->0@ == blob_file_contents@.skip(index_of(blob_file_contents@, '\0') + 1 as int),
{
    let n = blob_file_contents.unicode_len();
    let mut i: usize = 0;
    while i < n && blob_file_contents.get_char(i) != '\0'
        invariant
            n == blob_file_contents@.len(),
            0 <= i <= n,
            forall|j: int| 0 <= j < i ==> blob_file_contents@[j] != '\0',
        decreases n - i,
    {
        i = i + 1;
    }
    proof {
        lemma_index_of(blob_file_contents@, '\0', i as int);
    }
    if i == n {
        None
    } else {
        let r = blob_file_contents.substring_char(i + 1, n);
        assert(r@ =~= blob_file_contents@.skip(i + 1));
        Some(r)
    }
}

} // verus!
