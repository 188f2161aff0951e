use rsig::digest::Digest;
use rsig::error::DeltaError;

fn sample_digest() -> Digest {
    Digest { w0: 0x0123456789abcdef, w1: 0xfedcba9876543210, w2: 0, w3: u64::MAX }
}

#[test]
fn hex_encoding_is_64_lowercase_chars() {
    let d = sample_digest();
    let hex = d.to_hex();
    assert_eq!(hex.len(), 64);
    for c in &hex {
        assert!(c.is_ascii_hexdigit());
        assert!(!c.is_ascii_uppercase());
    }
}

#[test]
fn hex_encoding_exact_value() {
    // Little-endian per word: the low byte of w0 comes first.
    let d = Digest { w0: 0x0123456789abcdef, w1: 0, w2: 0, w3: 0 };
    let hex = d.to_hex();
    let expected = b"efcdab8967452301000000000000000000000000000000000000000000000000";
    assert_eq!(hex, expected.to_vec());
}

#[test]
fn hex_round_trip() {
    let d = sample_digest();
    let hex = d.to_hex();
    let back = Digest::from_hex(&hex).unwrap();
    assert_eq!(back, d);
}

#[test]
fn hex_accepts_uppercase() {
    let d = Digest { w0: 0xab, w1: 0, w2: 0, w3: 0 };
    let mut hex = d.to_hex();
    for c in hex.iter_mut() {
        *c = c.to_ascii_uppercase();
    }
    let back = Digest::from_hex(&hex).unwrap();
    assert_eq!(back, d);
}

#[test]
fn hex_rejects_wrong_length() {
    let r = Digest::from_hex(&b"abcd".to_vec());
    assert_eq!(r, Err(DeltaError::BadHexDigest));
}

#[test]
fn hex_rejects_non_hex_chars() {
    let mut hex = sample_digest().to_hex();
    hex[10] = b'g';
    assert_eq!(Digest::from_hex(&hex), Err(DeltaError::BadHexDigest));
}

#[test]
fn digest_byte_access() {
    let d = Digest { w0: 0x0807060504030201, w1: 0, w2: 0, w3: 0 };
    for j in 0..8 {
        assert_eq!(d.byte_at(j), (j as u8) + 1);
    }
    assert_eq!(d.byte_at(8), 0);
}
