use rust_users::b64::{b64_decode, b64_encode};

fn enc(input: &[u8]) -> String {
    String::from_utf8(b64_encode(input)).expect("base64url output is ASCII")
}

#[test]
fn encode_known_vectors() {
    assert_eq!(enc(b""), "");
    assert_eq!(enc(b"f"), "Zg");
    assert_eq!(enc(b"fo"), "Zm8");
    assert_eq!(enc(b"foo"), "Zm9v");
    assert_eq!(enc(b"foob"), "Zm9vYg");
    assert_eq!(enc(b"fooba"), "Zm9vYmE");
    assert_eq!(enc(b"foobar"), "Zm9vYmFy");
}

#[test]
fn encode_uses_url_safe_alphabet() {
    assert_eq!(enc(&[0xfb, 0xef]), "--8");
    assert_eq!(enc(&[0xff, 0xe0]), "_-A");
}

#[test]
fn decode_inverts_encode() {
    let cases: [&[u8]; 6] = [b"", b"f", b"fo", b"foo", b"\xff\x00\xfe", b"any carnal pleasure"];
    for input in cases {
        let encoded = b64_encode(input);
        let decoded = b64_decode(&encoded).expect("canonical text must decode");
        assert_eq!(decoded, input);
    }
}

#[test]
fn decode_rejects_padding_and_bad_lengths() {
    assert!(b64_decode(b"A").is_none());
    assert!(b64_decode(b"Zg==").is_none());
    assert!(b64_decode(b"Zm9vYg=").is_none());
    assert!(b64_decode(b"Z*9v").is_none());
    assert!(b64_decode(b"Zm9v+").is_none());
}

#[test]
fn decode_rejects_nonzero_trailing_bits() {
    // "AB" carries one byte and four spare bits; canonical text leaves
    // the spare bits zero, so "AQ" decodes and "AB" does not.
    assert_eq!(b64_decode(b"AQ"), Some(vec![1u8]));
    assert!(b64_decode(b"AB").is_none());
    assert_eq!(b64_decode(b"AAE"), Some(vec![0u8, 1u8]));
    assert!(b64_decode(b"AAB").is_none());
}
