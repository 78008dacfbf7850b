use git_objects::codec::{compress, decompress};
use git_objects::error::ObjectError;

fn sample_bytes() -> Vec<u8> {
    (0u8..20).map(|i| i * 13).collect()
}

#[test]
fn from_bytes_accepts_twenty_bytes() {
    let bytes = sample_bytes();
    let h = git_objects::hash::Hash::from_bytes(&bytes).unwrap();
    assert_eq!(h.as_bytes().to_vec(), bytes);
}

#[test]
fn from_bytes_rejects_other_lengths() {
    assert_eq!(git_objects::hash::Hash::from_bytes(&[1u8; 19]), Err(ObjectError::InvalidLength));
    assert_eq!(git_objects::hash::Hash::from_bytes(&[1u8; 21]), Err(ObjectError::InvalidLength));
    assert_eq!(git_objects::hash::Hash::from_bytes(&[]), Err(ObjectError::InvalidLength));
}

#[test]
fn to_hex_is_lower_case_two_digits_per_byte() {
    let mut bytes = vec![0u8; 20];
    bytes[0] = 0xab;
    bytes[1] = 0x05;
    bytes[19] = 0xff;
    let h = git_objects::hash::Hash::from_bytes(&bytes).unwrap();
    assert_eq!(h.to_hex(), "ab050000000000000000000000000000000000ff");
}

#[test]
fn hex_round_trip() {
    let h = git_objects::hash::Hash::from_bytes(&sample_bytes()).unwrap();
    let text = h.to_hex();
    assert_eq!(text.len(), 40);
    assert_eq!(git_objects::hash::Hash::from_hex(&text), Ok(h));
}

#[test]
fn from_hex_accepts_upper_case() {
    let h = git_objects::hash::Hash::from_hex("CE013625030BA8DBA906F756967F9E9CA394464A").unwrap();
    assert_eq!(h.to_hex(), "ce013625030ba8dba906f756967f9e9ca394464a");
    assert_eq!(h.as_bytes()[0], 0xce);
}

#[test]
fn from_hex_rejects_malformed_text() {
    // wrong length, odd length, a non-hex digit, empty
    assert_eq!(git_objects::hash::Hash::from_hex("abcd"), Err(ObjectError::InvalidHex));
    assert_eq!(
        git_objects::hash::Hash::from_hex("ce013625030ba8dba906f756967f9e9ca394464"),
        Err(ObjectError::InvalidHex)
    );
    assert_eq!(
        git_objects::hash::Hash::from_hex("ce013625030ba8dba906f756967f9e9ca394464g"),
        Err(ObjectError::InvalidHex)
    );
    assert_eq!(git_objects::hash::Hash::from_hex(""), Err(ObjectError::InvalidHex));
}

#[test]
fn compress_round_trip() {
    let data = b"hello hello hello hello\n".to_vec();
    let packed = compress(&data);
    assert_ne!(packed, data);
    assert_eq!(decompress(&packed), Ok(data));
}

#[test]
fn compress_round_trip_empty() {
    let packed = compress(&[]);
    assert!(!packed.is_empty());
    assert_eq!(decompress(&packed), Ok(Vec::new()));
}

#[test]
fn compress_round_trip_binary() {
    let data: Vec<u8> = (0..=255u8).cycle().take(3000).collect();
    assert_eq!(decompress(&compress(&data)), Ok(data));
}

#[test]
fn decompress_rejects_garbage() {
    assert_eq!(decompress(b"not a zlib stream"), Err(ObjectError::CorruptData));
}
