use crate::error::ObjectError;
use crate::object::{
    index_of, lemma_index_of, lemma_index_of_found, prepare_object, prepared, ObjectKind,
};
use vstd::multiset::Multiset;
use vstd::prelude::*;
use vstd::string::StringSliceAdditionalSpecFns;
use vstd::utf8::{decode_utf8, decode_utf8_encode_utf8, encode_utf8, valid_utf8};
use vstd::relations::{sorted_by, total_ordering};
use vstd::seq_lib::{lemma_multiset_commutative, lemma_sorted_unique};

verus! {

/// Byte-wise lexicographic order: a proper prefix comes first.
pub open spec fn bytes_lt(a: Seq<u8>, b: Seq<u8>) -> bool
    decreases a.len(),
{
    if a.len() == 0 {
        b.len() > 0
    } else if b.len() == 0 {
        false
    } else if a[0] != b[0] {
        a[0] < b[0]
    } else {
        bytes_lt(a.drop_first(), b.drop_first())
    }
}

/// The byte-wise order is a strict total order.
pub proof fn lemma_bytes_lt_strict_total(a: Seq<u8>, b: Seq<u8>, c: Seq<u8>)
    ensures
        !bytes_lt(a, a),
        bytes_lt(a, b) ==> !bytes_lt(b, a),
        bytes_lt(a, b) && bytes_lt(b, c) ==> bytes_lt(a, c),
        a != b ==> bytes_lt(a, b) || bytes_lt(b, a),
    decreases a.len(),
{
    if a.len() > 0 && b.len() > 0 && c.len() > 0 {
        lemma_bytes_lt_strict_total(a.drop_first(), b.drop_first(), c.drop_first());
    } else if a.len() > 0 && b.len() > 0 {
        lemma_bytes_lt_strict_total(a.drop_first(), b.drop_first(), b.drop_first());
    } else if a.len() > 0 {
        lemma_bytes_lt_strict_total(a.drop_first(), a.drop_first(), a.drop_first());
    }
    if a != b && a.len() > 0 && b.len() > 0 && a[0] == b[0] {
        assert(a.drop_first() != b.drop_first()) by {
            if a.drop_first() == b.drop_first() {
                assert(a =~= seq![a[0]] + a.drop_first());
                assert(b =~= seq![b[0]] + b.drop_first());
            }
        }
    }
    if a.len() == 0 && b.len() == 0 {
        assert(a =~= b);
    }
}

/// Whether `a` comes before `b` byte-wise.
pub fn bytes_less(a: &[u8], b: &[u8]) -> (r: bool)
    ensures
        r == bytes_lt(a@, b@),
{
    let mut i: usize = 0;
    assert(a@.skip(0) =~= a@ && b@.skip(0) =~= b@);
    while i < a.len() && i < b.len()
        invariant
            0 <= i <= a@.len(),
            i <= b@.len(),
            bytes_lt(a@, b@) == bytes_lt(a@.skip(i as int), b@.skip(i as int)),
        decreases a@.len() - i,
    {
        assert(a@.skip(i as int).drop_first() =~= a@.skip(i + 1));
        assert(b@.skip(i as int).drop_first() =~= b@.skip(i + 1));
        if a[i] != b[i] {
            return a[i] < b[i];
        }
        i = i + 1;
    }
    i == a.len() && i < b.len()
}

/// One record of a tree: a file-mode token, a path segment and the address
/// of the blob or tree it names.
#[derive(Debug, Clone, PartialEq, Eq)]
pub struct GitTreeEntry {
    pub mode: String,
    pub name: String,
    pub hash: crate::hash::Hash,
}

/// A tree record as bytes.
pub struct EntryModel {
    pub mode: Seq<u8>,
    pub name: Seq<u8>,
    pub target: Seq<u8>,
}

impl View for GitTreeEntry {
    type V = EntryModel;

    open spec fn view(&self) -> EntryModel {
        EntryModel {
            mode: encode_utf8(self.mode@),
            name: encode_utf8(self.name@),
            target: self.hash@,
        }
    }
}

/// The models of a sequence of entries.
pub open spec fn models(es: Seq<GitTreeEntry>) -> Seq<EntryModel> {
    es.map_values(|e: GitTreeEntry| e@)
}

/// The order of records in a tree: by name, byte-wise; records with equal
/// names (which a directory never holds) by mode, then by address.
pub open spec fn entry_le(x: EntryModel, y: EntryModel) -> bool {
    ||| bytes_lt(x.name, y.name)
    ||| x.name == y.name && bytes_lt(x.mode, y.mode)
    ||| x.name == y.name && x.mode == y.mode && bytes_lt(x.target, y.target)
    ||| x == y
}

/// `entry_le` as a relation value.
pub open spec fn entry_order() -> spec_fn(EntryModel, EntryModel) -> bool {
    |x: EntryModel, y: EntryModel| entry_le(x, y)
}

/// The records sorted into tree order.
pub open spec fn sort_by_name(es: Seq<EntryModel>) -> Seq<EntryModel> {
    es.sort_by(entry_order())
}

/// Tree order is a total order.
pub proof fn lemma_entry_order_total()
    ensures
        total_ordering(entry_order()),
{
    let le = entry_order();
    assert forall|x: EntryModel, y: EntryModel| #[trigger] le(x, y) && #[trigger] le(y, x) implies x
        == y by {
        lemma_bytes_lt_strict_total(x.name, y.name, x.name);
        lemma_bytes_lt_strict_total(x.mode, y.mode, x.mode);
        lemma_bytes_lt_strict_total(x.target, y.target, x.target);
    }
    assert forall|x: EntryModel, y: EntryModel| #[trigger] le(x, y) || #[trigger] le(y, x) by {
        lemma_bytes_lt_strict_total(x.name, y.name, x.name);
        lemma_bytes_lt_strict_total(x.mode, y.mode, x.mode);
        lemma_bytes_lt_strict_total(x.target, y.target, x.target);
    }
    assert forall|x: EntryModel, y: EntryModel, z: EntryModel|
        #[trigger] le(x, y) && #[trigger] le(y, z) implies le(x, z) by {
        lemma_bytes_lt_strict_total(x.name, y.name, z.name);
        lemma_bytes_lt_strict_total(x.mode, y.mode, z.mode);
        lemma_bytes_lt_strict_total(x.target, y.target, z.target);
    }
}

impl GitTreeEntry {
    /// Whether this entry may stand before `other` in a tree.
    pub fn le(&self, other: &GitTreeEntry) -> (r: bool)
        ensures
            r == entry_le(self@, other@),
    {
        let a = self.name.as_str().as_bytes();
        let b = other.name.as_str().as_bytes();
        if bytes_less(a, b) {
            return true;
        }
        if !bytes_less(b, a) {
            let m = self.mode.as_str().as_bytes();
            let n = other.mode.as_str().as_bytes();
            if bytes_less(m, n) {
                proof {
                    lemma_bytes_lt_strict_total(a@, b@, a@);
                }
                return true;
            }
            if !bytes_less(n, m) {
                let s = self.hash.as_bytes().as_slice();
                let t = other.hash.as_bytes().as_slice();
                proof {
                    lemma_bytes_lt_strict_total(a@, b@, a@);
                    lemma_bytes_lt_strict_total(m@, n@, m@);
                    lemma_bytes_lt_strict_total(s@, t@, s@);
                    self.hash.lemma_len();
                }
                return !bytes_less(t, s);
            }
        }
        proof {
            lemma_bytes_lt_strict_total(a@, b@, a@);
            lemma_bytes_lt_strict_total(self@.mode, other@.mode, a@);
        }
        false
    }
}

/// Inserting into a sequence adds one occurrence to its multiset.
proof fn lemma_insert_to_multiset<A>(s: Seq<A>, p: int, x: A)
    requires
        0 <= p <= s.len(),
    ensures
        s.insert(p, x).to_multiset() == s.to_multiset().insert(x),
{
    broadcast use vstd::seq_lib::group_to_multiset_ensures;

    let a = s.take(p);
    let b = s.skip(p);
    assert(s =~= a + b);
    assert(s.insert(p, x) =~= a.push(x) + b);
    lemma_multiset_commutative(a, b);
    lemma_multiset_commutative(a.push(x), b);
    assert(s.insert(p, x).to_multiset() =~= s.to_multiset().insert(x));
}

/// Sorts entries into tree order.
pub fn sort_entries(entries: Vec<GitTreeEntry>) -> (r: Vec<GitTreeEntry>)
    ensures
        models(r@) == sort_by_name(models(entries@)),
{
    broadcast use vstd::seq_lib::group_to_multiset_ensures;

    let ghost le = entry_order();
    proof {
        lemma_entry_order_total();
    }
    let mut rest = entries;
    let mut out: Vec<GitTreeEntry> = Vec::new();
    assert(models(out@).to_multiset() =~= Multiset::empty());
    while rest.len() > 0
        invariant
            total_ordering(le),
            le == entry_order(),
            models(out@).to_multiset().add(models(rest@).to_multiset()) == models(
                entries@,
            ).to_multiset(),
            sorted_by(models(out@), le),
        decreases rest.len(),
    {
        let ghost old_rest = rest@;
        let x = match rest.pop() {
            Some(x) => x,
            None => {
                return out;
            },
        };
        proof {
            assert(old_rest =~= rest@.push(x));
            assert(models(old_rest) =~= models(rest@).push(x@));
        }
        let mut p: usize = 0;
        while p < out.len() && out[p].le(&x)
            invariant
                p <= out@.len(),
                forall|j: int| 0 <= j < p ==> entry_le(#[trigger] out@[j]@, x@),
            decreases out@.len() - p,
        {
            p = p + 1;
        }
        let ghost m = models(out@);
        out.insert(p, x);
        proof {
            let m2 = models(out@);
            assert(m2 =~= m.insert(p as int, x@));
            lemma_insert_to_multiset(m, p as int, x@);
            models(rest@).to_multiset_ensures();
            assert(models(old_rest).to_multiset() == models(rest@).push(x@).to_multiset());
            assert(models(old_rest).to_multiset() =~= models(rest@).to_multiset().insert(x@));
            assert(m2.to_multiset().add(models(rest@).to_multiset()) =~= m.to_multiset().add(
                models(old_rest).to_multiset(),
            ));
            assert forall|i: int, j: int| 0 <= i < j < m2.len() implies #[trigger] le(
                m2[i],
                m2[j],
            ) by {
                if j < p {
                } else if j == p {
                    assert(m2[i] == m[i]);
                } else if i == p {
                    assert(m2[j] == m[j - 1]);
                    assert(!le(m[p as int], x@));
                    assert(le(x@, m[p as int]));
                    if j - 1 > p {
                        assert(le(m[p as int], m[j - 1]));
                    }
                } else if i < p {
                    assert(m2[i] == m[i] && m2[j] == m[j - 1]);
                } else {
                    assert(m2[i] == m[i - 1] && m2[j] == m[j - 1]);
                }
            }
        }
    }
    proof {
        let m = models(entries@);
        assert(models(rest@).to_multiset() =~= Multiset::empty());
        assert(models(out@).to_multiset() =~= m.to_multiset());
        m.lemma_sort_by_ensures(le);
        lemma_sorted_unique(models(out@), m.sort_by(le), le);
    }
    out
}

/// One record of the tree payload: `"<mode> <name>\0"` and the 20 raw bytes
/// of the address.
pub open spec fn entry_record(e: EntryModel) -> Seq<u8> {
    e.mode + seq![32u8] + e.name + seq![0u8] + e.target
}

/// The records of a tree payload, in the given order.
pub open spec fn tree_bytes(es: Seq<EntryModel>) -> Seq<u8>
    decreases es.len(),
{
    if es.len() == 0 {
        Seq::empty()
    } else {
        tree_bytes(es.drop_last()) + entry_record(es.last())
    }
}

/// A tree payload starts with the record of its first entry.
pub proof fn lemma_tree_bytes_front(es: Seq<EntryModel>)
    requires
        es.len() > 0,
    ensures
        tree_bytes(es) == entry_record(es[0]) + tree_bytes(es.drop_first()),
    decreases es.len(),
{
    if es.len() == 1 {
        assert(es.drop_last() =~= Seq::<EntryModel>::empty());
        assert(es.drop_first() =~= Seq::<EntryModel>::empty());
        assert(tree_bytes(es) =~= entry_record(es[0]) + tree_bytes(es.drop_first()));
    } else {
        lemma_tree_bytes_front(es.drop_last());
        assert(es.drop_last().drop_first() =~= es.drop_first().drop_last());
        assert(es.drop_first().last() == es.last());
        assert(tree_bytes(es) =~= entry_record(es[0]) + tree_bytes(es.drop_first()));
    }
}

/// Writes the records of entries in the order given.
fn encode_entries(entries: &Vec<GitTreeEntry>) -> (r: Vec<u8>)
    ensures
        r@ == tree_bytes(models(entries@)),
{
    let mut out: Vec<u8> = Vec::new();
    let mut i: usize = 0;
    while i < entries.len()
        invariant
            0 <= i <= entries@.len(),
            out@ == tree_bytes(models(entries@).take(i as int)),
        decreases entries@.len() - i,
    {
        let e = &entries[i];
        out.extend_from_slice(e.mode.as_str().as_bytes());
        out.push(32u8);
        out.extend_from_slice(e.name.as_str().as_bytes());
        out.push(0u8);
        out.extend_from_slice(e.hash.as_bytes().as_slice());
        proof {
            let m = models(entries@);
            assert(m.take(i + 1).drop_last() =~= m.take(i as int));
            assert(m.take(i + 1).last() == e@);
            assert(out@ =~= tree_bytes(m.take(i + 1)));
        }
        i = i + 1;
    }
    assert(models(entries@).take(i as int) =~= models(entries@));
    out
}

/// Encodes a tree payload: the entries sorted by name, then each written as
/// `"<mode> <name>\0"` followed by the 20 raw bytes of its address.
pub fn encode_tree(entries: Vec<GitTreeEntry>) -> (r: Vec<u8>)
    ensures
        r@ == tree_bytes(sort_by_name(models(entries@))),
{
    let sorted = sort_entries(entries);
    encode_entries(&sorted)
}

/// Prepares a directory's entries as a tree object.
pub fn write_tree(entries: Vec<GitTreeEntry>) -> (r: crate::object::StoredObject)
    ensures
        prepared(r, ObjectKind::Tree, tree_bytes(sort_by_name(models(entries@)))),
{
    let payload = encode_tree(entries);
    prepare_object(ObjectKind::Tree, payload.as_slice())
}

/// Reads tree records from the front of `s`: each is the bytes up to the
/// first NUL, split at their first space into mode and name (both UTF-8),
/// then exactly 20 bytes of address. `None` where that fails.
pub open spec fn parse_tree(s: Seq<u8>) -> Option<Seq<EntryModel>>
    decreases s.len(),
{
    if s.len() == 0 {
        Some(Seq::empty())
    } else {
        let z = index_of(s, 0u8) as int;
        let sp = index_of(s.take(z), 32u8) as int;
        if z + 21 > s.len() || sp == z {
            None
        } else {
            let e = EntryModel {
                mode: s.take(sp),
                name: s.subrange(sp + 1, z),
                target: s.subrange(z + 1, z + 21),
            };
            if !valid_utf8(e.mode) || !valid_utf8(e.name) {
                None
            } else {
                match parse_tree(s.skip(z + 21)) {
                    Some(rest) => Some(seq![e] + rest),
                    None => None,
                }
            }
        }
    }
}

/// `pre` in front of what a parse gave, if it succeeded.
pub open spec fn prepend(pre: Seq<EntryModel>, o: Option<Seq<EntryModel>>) -> Option<
    Seq<EntryModel>,
> {
    match o {
        Some(rest) => Some(pre + rest),
        None => None,
    }
}

/// Relies on String::from_utf8: it accepts exactly the valid UTF-8 byte
/// sequences and keeps the text they encode.
#[verifier::external_body]
fn utf8_string(b: &[u8]) -> (r: Option<String>)
    ensures
        r is Some <==> valid_utf8(b@),
        r is Some ==> r->0@ == decode_utf8(b@),
{
    String::from_utf8(b.to_vec()).ok()
}

/// What a successful parse reads are well-formed records that make up the
/// whole input.
pub proof fn lemma_parse_tree_sound(s: Seq<u8>)
    requires
        parse_tree(s) is Some,
    ensures
        tree_bytes(parse_tree(s)->0) == s,
        forall|i: int|
            0 <= i < parse_tree(s)->0.len() ==> well_formed_entry(#[trigger] parse_tree(s)->0[i]),
    decreases s.len(),
{
    let es = parse_tree(s)->0;
    if s.len() == 0 {
        assert(tree_bytes(es) =~= s);
    } else {
        let z = index_of(s, 0u8) as int;
        let sp = index_of(s.take(z), 32u8) as int;
        let rest = s.skip(z + 21);
        lemma_parse_tree_sound(rest);
        lemma_index_of_found(s, 0u8);
        lemma_index_of_found(s.take(z), 32u8);
        let e = es[0];
        assert(es.drop_first() =~= parse_tree(rest)->0);
        lemma_tree_bytes_front(es);
        assert(entry_record(e) =~= s.take(z + 21));
        assert(s =~= s.take(z + 21) + rest);
        assert forall|i: int| 0 <= i < e.mode.len() implies #[trigger] e.mode[i] != 32 && e.mode[i]
            != 0 by {
            assert(e.mode[i] == s.take(z)[i]);
        }
        assert forall|i: int| 0 <= i < e.name.len() implies #[trigger] e.name[i] != 0 by {
            assert(e.name[i] == s[sp + 1 + i]);
        }
        assert forall|i: int| 0 <= i < es.len() implies well_formed_entry(#[trigger] es[i]) by {
            if i > 0 {
                assert(es[i] == parse_tree(rest)->0[i - 1]);
            }
        }
    }
}

/// Decodes a tree payload into its entries, in the order they are stored.
/// It succeeds exactly on the payloads that are the records of well-formed
/// entries, and then returns those entries.
pub fn decode_tree(payload: &[u8]) -> (r: Result<Vec<GitTreeEntry>, ObjectError>)
    ensures
        r is Ok <==> parse_tree(payload@) is Some,
        r is Ok ==> parse_tree(payload@) == Some(models(r->Ok_0@)),
        r is Ok ==> payload@ == tree_bytes(models(r->Ok_0@)),
        r is Ok ==> forall|i: int|
            0 <= i < r->Ok_0@.len() ==> well_formed_entry(#[trigger] models(r->Ok_0@)[i]),
        forall|es: Seq<EntryModel>|
            (forall|i: int| 0 <= i < es.len() ==> well_formed_entry(#[trigger] es[i]))
                && #[trigger] tree_bytes(es) == payload@ ==> r is Ok && models(r->Ok_0@) == es,
        r is Err ==> r->Err_0 == ObjectError::CorruptTree,
{
    let r = parse_records(payload);
    proof {
        if r is Ok {
            lemma_parse_tree_sound(payload@);
        }
        assert forall|es: Seq<EntryModel>|
            (forall|i: int| 0 <= i < es.len() ==> well_formed_entry(#[trigger] es[i]))
                && #[trigger] tree_bytes(es) == payload@ implies r is Ok && models(r->Ok_0@)
            == es by {
            lemma_parse_tree_bytes(es);
        }
    }
    r
}

/// Reads the records of a tree payload one after another.
fn parse_records(payload: &[u8]) -> (r: Result<Vec<GitTreeEntry>, ObjectError>)
    ensures
        r is Ok <==> parse_tree(payload@) is Some,
        r is Ok ==> parse_tree(payload@) == Some(models(r->Ok_0@)),
        r is Err ==> r->Err_0 == ObjectError::CorruptTree,
{
    let n = payload.len();
    let mut pos: usize = 0;
    let mut out: Vec<GitTreeEntry> = Vec::new();
    assert(payload@.skip(0) =~= payload@);
    assert(models(out@) + Seq::<EntryModel>::empty() =~= Seq::<EntryModel>::empty());
    while pos < n
        invariant
            n == payload@.len(),
            0 <= pos <= n,
            parse_tree(payload@) == prepend(models(out@), parse_tree(payload@.skip(pos as int))),
        decreases n - pos,
    {
        let ghost s = payload@.skip(pos as int);
        let mut z: usize = pos;
        while z < n && payload[z] != 0
            invariant
                n == payload@.len(),
                pos <= z <= n,
                forall|j: int| pos <= j < z ==> payload@[j] != 0,
            decreases n - z,
        {
            z = z + 1;
        }
        proof {
            lemma_index_of(s, 0u8, z - pos);
        }
        if z == n || n - z - 1 < 20 {
            return Err(ObjectError::CorruptTree);
        }
        let mut sp: usize = pos;
        while sp < z && payload[sp] != 32
            invariant
                n == payload@.len(),
                pos <= sp <= z,
                z < n,
                forall|j: int| pos <= j < sp ==> payload@[j] != 32,
            decreases z - sp,
        {
            sp = sp + 1;
        }
        proof {
            lemma_index_of(s.take(z - pos), 32u8, sp - pos);
        }
        if sp == z {
            return Err(ObjectError::CorruptTree);
        }
        let ghost mode_bytes = payload@.subrange(pos as int, sp as int);
        let ghost name_bytes = payload@.subrange(sp + 1, z as int);
        assert(s.take(sp - pos) =~= mode_bytes);
        assert(s.subrange(sp - pos + 1, z - pos) =~= name_bytes);
        let mode = match utf8_string(&payload[pos..sp]) {
            Some(m) => m,
            None => {
                return Err(ObjectError::CorruptTree);
            },
        };
        let name = match utf8_string(&payload[sp + 1..z]) {
            Some(m) => m,
            None => {
                return Err(ObjectError::CorruptTree);
            },
        };
        let hash = match crate::hash::Hash::from_bytes(&payload[z + 1..z + 21]) {
            Ok(h) => h,
            Err(_) => {
                return Err(ObjectError::CorruptTree);
            },
        };
        let entry = GitTreeEntry { mode, name, hash };
        proof {
            decode_utf8_encode_utf8(mode_bytes);
            decode_utf8_encode_utf8(name_bytes);
            assert(s.subrange(z - pos + 1, z - pos + 21) =~= payload@.subrange(z + 1, z + 21));
            assert(s.skip(z - pos + 21) =~= payload@.skip(z + 21));
            let e = EntryModel {
                mode: s.take(sp - pos),
                name: s.subrange(sp - pos + 1, z - pos),
                target: s.subrange(z - pos + 1, z - pos + 21),
            };
            assert(entry@ == e);
        }
        let ghost old_models = models(out@);
        out.push(entry);
        pos = z + 21;
        proof {
            assert(models(out@) =~= old_models + seq![entry@]);
            match parse_tree(payload@.skip(pos as int)) {
                Some(rest) => {
                    assert(old_models + (seq![entry@] + rest) =~= models(out@) + rest);
                },
                None => {},
            }
        }
    }
    proof {
        assert(payload@.skip(pos as int) =~= Seq::<u8>::empty());
        assert(models(out@) + Seq::<EntryModel>::empty() =~= models(out@));
    }
    Ok(out)
}

/// The names in a decompressed tree object: the header, up to the first NUL,
/// is skipped and the rest is decoded as a tree payload.
pub fn extract_names_from_tree_entries(tree_object: &[u8]) -> (r: Result<
    Vec<String>,
    ObjectError,
>)
    ensures
        index_of(tree_object@, 0u8) == tree_object@.len() ==> r == Err::<Vec<String>, ObjectError>(
            ObjectError::CorruptHeader,
        ),
        index_of(tree_object@, 0u8) < tree_object@.len() ==> (r is Ok <==> parse_tree(
            tree_object@.skip(index_of(tree_object@, 0u8) + 1 as int),
        ) is Some),
        index_of(tree_object@, 0u8) < tree_object@.len() && r is Err ==> r->Err_0
            == ObjectError::CorruptTree,
        r is Ok ==> ({
            let es = parse_tree(tree_object@.skip(index_of(tree_object@, 0u8) + 1 as int))->0;
            &&& r->Ok_0@.len() == es.len()
            &&& forall|i: int|
                0 <= i < es.len() ==> encode_utf8(#[trigger] r->Ok_0@[i]@) == es[i].name
        }),
{
    let n = tree_object.len();
    let mut z: usize = 0;
    while z < n && tree_object[z] != 0
        invariant
            n == tree_object@.len(),
            0 <= z <= n,
            forall|j: int| 0 <= j < z ==> tree_object@[j] != 0,
        decreases n - z,
    {
        z = z + 1;
    }
    proof {
        lemma_index_of(tree_object@, 0u8, z as int);
    }
    if z == n {
        return Err(ObjectError::CorruptHeader);
    }
    let entries = decode_tree(&tree_object[z + 1..n])?;
    let mut names: Vec<String> = Vec::new();
    let mut i: usize = 0;
    while i < entries.len()
        invariant
            0 <= i <= entries@.len(),
            names@.len() == i,
            forall|j: int| 0 <= j < i ==> #[trigger] names@[j]@ == entries@[j].name@,
        decreases entries@.len() - i,
    {
        names.push(entries[i].name.clone());
        i = i + 1;
    }
    proof {
        assert(tree_object@.subrange(z + 1, n as int) =~= tree_object@.skip(z + 1));
    }
    Ok(names)
}

/// A record that can be written and read back: mode and name are UTF-8, the
/// mode holds no space and no NUL, the name no NUL, the address 20 bytes.
pub open spec fn well_formed_entry(e: EntryModel) -> bool {
    &&& valid_utf8(e.mode)
    &&& valid_utf8(e.name)
    &&& e.target.len() == 20
    &&& forall|i: int| 0 <= i < e.mode.len() ==> #[trigger] e.mode[i] != 32 && e.mode[i] != 0
    &&& forall|i: int| 0 <= i < e.name.len() ==> #[trigger] e.name[i] != 0
}

/// Cutting the records of well-formed entries anywhere within the trailing
/// 20-byte address leaves a payload that does not decode.
pub proof fn lemma_truncated_tree_fails(es: Seq<EntryModel>, k: int)
    requires
        es.len() > 0,
        forall|i: int| 0 <= i < es.len() ==> well_formed_entry(#[trigger] es[i]),
        tree_bytes(es).len() - 20 <= k < tree_bytes(es).len(),
    ensures
        parse_tree(tree_bytes(es).take(k)) is None,
    decreases es.len(),
{
    let s = tree_bytes(es);
    let t = s.take(k);
    lemma_tree_bytes_front(es);
    let e = es[0];
    let rest = es.drop_first();
    let rec = entry_record(e);
    assert(well_formed_entry(e));
    let m = e.mode.len() as int;
    let z = m + 1 + e.name.len() as int;
    assert(s == rec + tree_bytes(rest));
    assert forall|j: int| 0 <= j < z implies t[j] != 0 by {
        if j < m {
            assert(t[j] == e.mode[j]);
        } else if j > m {
            assert(t[j] == e.name[j - m - 1]);
        }
    }
    if rest.len() > 0 {
        lemma_tree_bytes_front(rest);
    }
    assert(t[z] == 0);
    lemma_index_of(t, 0u8, z);
    assert forall|j: int| 0 <= j < m implies t.take(z)[j] != 32 by {
        assert(t[j] == e.mode[j]);
    }
    lemma_index_of(t.take(z), 32u8, m);
    if rest.len() > 0 {
        assert forall|i: int| 0 <= i < rest.len() implies well_formed_entry(#[trigger] rest[i]) by {
            assert(rest[i] == es[i + 1]);
        }
        let k2 = k - rec.len();
        lemma_truncated_tree_fails(rest, k2);
        assert(t.take(m) =~= e.mode);
        assert(t.subrange(m + 1, z) =~= e.name);
        assert(t.skip(z + 21) =~= tree_bytes(rest).take(k2));
    }
}

/// No two records share a name.
pub open spec fn distinct_names(es: Seq<EntryModel>) -> bool {
    forall|i: int, j: int| 0 <= i < j < es.len() ==> #[trigger] es[i].name != #[trigger] es[j].name
}

/// Reading the records of well-formed entries gives those entries back.
pub proof fn lemma_parse_tree_bytes(es: Seq<EntryModel>)
    requires
        forall|i: int| 0 <= i < es.len() ==> well_formed_entry(#[trigger] es[i]),
    ensures
        parse_tree(tree_bytes(es)) == Some(es),
    decreases es.len(),
{
    if es.len() == 0 {
        assert(tree_bytes(es) =~= Seq::<u8>::empty());
        assert(es =~= Seq::<EntryModel>::empty());
    } else {
        let e = es[0];
        let rest = es.drop_first();
        lemma_tree_bytes_front(es);
        assert forall|i: int| 0 <= i < rest.len() implies well_formed_entry(#[trigger] rest[i]) by {
            assert(rest[i] == es[i + 1]);
        }
        lemma_parse_tree_bytes(rest);
        let s = tree_bytes(es);
        let rec = entry_record(e);
        let m = e.mode.len() as int;
        let z = m + 1 + e.name.len() as int;
        assert(s == rec + tree_bytes(rest));
        assert forall|j: int| 0 <= j < z implies s[j] != 0 by {
            if j < m {
                assert(s[j] == e.mode[j]);
            } else if j > m {
                assert(s[j] == e.name[j - m - 1]);
            }
        }
        assert(s[z] == 0);
        lemma_index_of(s, 0u8, z);
        assert forall|j: int| 0 <= j < m implies s.take(z)[j] != 32 by {
            assert(s[j] == e.mode[j]);
        }
        lemma_index_of(s.take(z), 32u8, m);
        assert(s.take(m) =~= e.mode);
        assert(s.subrange(m + 1, z) =~= e.name);
        assert(s.subrange(z + 1, z + 21) =~= e.target);
        assert(s.skip(z + 21) =~= tree_bytes(rest));
        assert(seq![e] + rest =~= es);
    }
}

/// Decoding the encoding of well-formed entries gives them back sorted by
/// name.
pub proof fn lemma_decode_encode(es: Seq<EntryModel>)
    requires
        forall|i: int| 0 <= i < es.len() ==> well_formed_entry(#[trigger] es[i]),
    ensures
        parse_tree(tree_bytes(sort_by_name(es))) == Some(sort_by_name(es)),
{
    lemma_entry_order_total();
    es.lemma_sort_by_ensures(entry_order());
    let sorted = sort_by_name(es);
    assert forall|i: int| 0 <= i < sorted.len() implies well_formed_entry(#[trigger] sorted[i]) by {
        assert(sorted.contains(sorted[i]));
    }
    lemma_parse_tree_bytes(sorted);
}

/// Entries with distinct names come out of encoding in strictly ascending
/// byte-wise name order.
pub proof fn lemma_sorted_names_ascend(es: Seq<EntryModel>)
    requires
        distinct_names(es),
    ensures
        forall|i: int, j: int|
            0 <= i < j < sort_by_name(es).len() ==> bytes_lt(
                #[trigger] sort_by_name(es)[i].name,
                #[trigger] sort_by_name(es)[j].name,
            ),
{
    broadcast use vstd::seq_lib::group_to_multiset_ensures;

    lemma_entry_order_total();
    es.lemma_sort_by_ensures(entry_order());
    let s = sort_by_name(es);
    assert forall|i: int, j: int| 0 <= i < es.len() && 0 <= j < es.len() && i != j implies es[i]
        != es[j] by {
        if i < j {
            assert(es[i].name != es[j].name);
        } else {
            assert(es[j].name != es[i].name);
        }
    }
    assert(es.no_duplicates());
    es.lemma_multiset_has_no_duplicates();
    s.lemma_multiset_has_no_duplicates_conv();
    assert forall|i: int, j: int| 0 <= i < j < s.len() implies bytes_lt(
        #[trigger] s[i].name,
        #[trigger] s[j].name,
    ) by {
        assert(entry_order()(s[i], s[j]));
        assert(s.contains(s[i]) && s.contains(s[j]));
        let a = choose|a: int| 0 <= a < es.len() && es[a] == s[i];
        let b = choose|b: int| 0 <= b < es.len() && es[b] == s[j];
        if s[i].name == s[j].name {
            assert(a == b);
        }
    }
}

/// Encoding does not depend on the order in which the entries are given.
pub proof fn lemma_encode_order_independent(a: Seq<EntryModel>, b: Seq<EntryModel>)
    requires
        a.to_multiset() == b.to_multiset(),
    ensures
        sort_by_name(a) == sort_by_name(b),
        tree_bytes(sort_by_name(a)) == tree_bytes(sort_by_name(b)),
{
    lemma_entry_order_total();
    a.lemma_sort_by_ensures(entry_order());
    b.lemma_sort_by_ensures(entry_order());
    lemma_sorted_unique(sort_by_name(a), sort_by_name(b), entry_order());
}

} // verus!
