use crate::error::ObjectError;
use sha1::Digest;
use sha1::Sha1;
use vstd::prelude::*;
use vstd::string::StringSliceAdditionalSpecFns;
use vstd::utf8::encode_utf8;

verus! {

/// A 20-byte SHA-1 digest that addresses an object.
#[derive(Debug, Clone, Copy, PartialEq, Eq)]
pub struct Hash([u8; 20]);

impl View for Hash {
    type V = Seq<u8>;

    closed spec fn view(&self) -> Seq<u8> {
        self.0@
    }
}

/// The lower-case hexadecimal digit for a value below 16.
pub open spec fn hex_digit(d: u8) -> u8 {
    if d < 10 {
        (48 + d) as u8
    } else {
        (87 + d) as u8
    }
}

/// The value of an ASCII hexadecimal digit of either case, if it is one.
pub open spec fn hex_value(c: u8) -> Option<u8> {
    if 48 <= c <= 57 {
        Some((c - 48) as u8)
    } else if 97 <= c <= 102 {
        Some((c - 87) as u8)
    } else if 65 <= c <= 70 {
        Some((c - 55) as u8)
    } else {
        None
    }
}

/// Lower-case hexadecimal text of a byte sequence, two digits per byte,
/// high nibble first.
pub open spec fn hex_encoding(b: Seq<u8>) -> Seq<u8> {
    Seq::new(
        2 * b.len(),
        |i: int|
            if i % 2 == 0 {
                hex_digit(b[i / 2] / 16)
            } else {
                hex_digit(b[i / 2] % 16)
            },
    )
}

/// Text of even length made of hexadecimal digits only.
pub open spec fn is_hex_text(s: Seq<u8>) -> bool {
    &&& s.len() % 2 == 0
    &&& forall|i: int| 0 <= i < s.len() ==> (#[trigger] hex_value(s[i])) is Some
}

/// The bytes that hexadecimal text stands for.
pub open spec fn hex_decoding(s: Seq<u8>) -> Seq<u8> {
    Seq::new(
        s.len() / 2,
        |i: int| (hex_value(s[2 * i])->0 * 16 + hex_value(s[2 * i + 1])->0) as u8,
    )
}

/// Relies on hex::encode: lower-case digits, two per byte, high nibble first.
#[verifier::external_body]
fn encode_hex(b: &[u8]) -> (r: String)
    ensures
        encode_utf8(r@) == hex_encoding(b@),
{
    hex::encode(b)
}

/// Relies on hex::decode: it accepts text of even length whose bytes are all
/// hexadecimal digits of either case, and returns the bytes they stand for.
#[verifier::external_body]
fn decode_hex(s: &str) -> (r: Option<Vec<u8>>)
    ensures
        r is Some <==> is_hex_text(s.spec_bytes()),
        r is Some ==> r->0@ == hex_decoding(s.spec_bytes()),
{
    hex::decode(s).ok()
}

/// The SHA-1 digest of a byte sequence.
pub uninterp spec fn sha1_of(data: Seq<u8>) -> Seq<u8>;

/// Relies on sha1::Sha1 (through digest::Digest): the 20-byte SHA-1 digest of
/// the input.
#[verifier::external_body]
pub(crate) fn compute_sha1(data: &[u8]) -> (r: Hash)
    ensures
        r@ == sha1_of(data@),
{
    let mut hasher = Sha1::new();
    hasher.update(data);
    Hash(hasher.finalize().into())
}

impl Hash {
    /// Every address holds exactly 20 bytes.
    pub proof fn lemma_len(&self)
        ensures
            self@.len() == 20,
    {
    }

    /// Builds an address from exactly 20 bytes.
    pub fn from_bytes(bytes: &[u8]) -> (r: Result<Self, ObjectError>)
        ensures
            bytes@.len() == 20 <==> r is Ok,
            r is Ok ==> r->Ok_0@ == bytes@,
            r is Err ==> r->Err_0 == ObjectError::InvalidLength,
    {
        if bytes.len() == 20 {
            let mut array = [0u8; 20];
            let mut i: usize = 0;
            while i < 20
                invariant
                    bytes@.len() == 20,
                    0 <= i <= 20,
                    forall|j: int| 0 <= j < i ==> array@[j] == bytes@[j],
                decreases 20 - i,
            {
                array[i] = bytes[i];
                i = i + 1;
            }
            assert(array@ =~= bytes@);
            Ok(Hash(array))
        } else {
            Err(ObjectError::InvalidLength)
        }
    }

    /// The address as 40 lower-case hexadecimal digits.
    pub fn to_hex(&self) -> (r: String)
        ensures
            encode_utf8(r@) == hex_encoding(self@),
    {
        encode_hex(self.0.as_slice())
    }

    /// Parses 40 hexadecimal digits (of either case) into an address.
    pub fn from_hex(s: &str) -> (r: Result<Self, ObjectError>)
        ensures
            r is Ok <==> is_hex_text(s.spec_bytes()) && s.spec_bytes().len() == 40,
            r is Ok ==> r->Ok_0@ == hex_decoding(s.spec_bytes()),
            r is Err ==> r->Err_0 == ObjectError::InvalidHex,
    {
        match decode_hex(s) {
            Some(v) => {
                if v.len() == 20 {
                    match Hash::from_bytes(v.as_slice()) {
                        Ok(h) => Ok(h),
                        Err(_) => Err(ObjectError::InvalidHex),
                    }
                } else {
                    Err(ObjectError::InvalidHex)
                }
            },
            None => Err(ObjectError::InvalidHex),
        }
    }

    /// The raw 20 bytes of the address.
    pub fn as_bytes(&self) -> (r: &[u8; 20])
        ensures
            r@ == self@,
    {
        &self.0
    }
}

/// Decoding the hexadecimal text of a byte sequence gives the bytes back.
pub proof fn lemma_hex_decoding_inverts_encoding(b: Seq<u8>)
    ensures
        is_hex_text(hex_encoding(b)),
        hex_decoding(hex_encoding(b)) == b,
{
    let e = hex_encoding(b);
    assert forall|i: int| 0 <= i < e.len() implies (#[trigger] hex_value(e[i])) is Some by {
        let x = b[i / 2];
        assert(x / 16 < 16 && x % 16 < 16);
    }
    assert forall|j: int| 0 <= j < b.len() implies #[trigger] hex_decoding(e)[j] == b[j] by {
        let x = b[j];
        assert((2 * j) / 2 == j && (2 * j) % 2 == 0);
        assert((2 * j + 1) / 2 == j && (2 * j + 1) % 2 == 1);
        assert(hex_value(hex_digit(x / 16)) == Some(x / 16));
        assert(hex_value(hex_digit(x % 16)) == Some(x % 16));
        assert((x / 16) * 16 + x % 16 == x);
    }
    assert(hex_decoding(e) =~= b);
}

/// Reading back the text that `to_hex` produces gives the same address:
/// the text is accepted by `from_hex` and decodes to the original bytes.
pub proof fn lemma_hex_round_trip(h: Hash)
    ensures
        is_hex_text(hex_encoding(h@)),
        hex_encoding(h@).len() == 40,
        hex_decoding(hex_encoding(h@)) == h@,
{
    h.lemma_len();
    lemma_hex_decoding_inverts_encoding(h@);
}

} // verus!
