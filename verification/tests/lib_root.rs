use pct::{
    decode, decode_bytes, encode, encode_bytes, encode_for_fragment, encode_for_path,
    encode_for_query, encoded_len_idempotent, encoded_len_raw, needs_encoding_idempotent,
    needs_encoding_raw, EncodeSet, Encoded, PercentEncode,
};

#[test]
fn convenience_path() {
    assert_eq!(encode_for_path("a/b c"), "a/b%20c");
}

#[test]
fn convenience_query() {
    assert_eq!(encode_for_query("k=v&x=1 y"), "k=v&x=1%20y");
}

#[test]
fn convenience_fragment() {
    assert_eq!(encode_for_fragment("a#b c"), "a#b%20c");
}

#[test]
fn encoded_wrapper() {
    let url = format!("https://example.com/{}", Encoded("foo/bar baz").to_string());
    assert_eq!(url, "https://example.com/foo%2Fbar%20baz");
}

#[test]
fn trait_on_str() {
    assert_eq!("hello world".percent_encode(), "hello%20world");
    assert_eq!("hello%20world".percent_decode(), "hello world");
}

#[test]
fn issue_503_percent_is_encoded() {
    assert_eq!(encode("100%"), "100%25");
    assert_eq!(encode("%"), "%25");
}

#[test]
fn issue_503_idempotent() {
    assert_eq!(encode("foo%20bar"), "foo%20bar");
    let first = encode("100% sure");
    let second = encode(&first);
    assert_eq!(first, second);
}

#[test]
fn issues_416_482_plus_in_url() {
    assert_eq!(encode("a+b"), "a%2Bb");
}

#[test]
fn roundtrip_url_encoding() {
    let original = "hello world!@#$%^&*()";
    let encoded = encode(original);
    let decoded = decode(&encoded);
    assert_eq!(decoded, original);
}

#[test]
fn roundtrip_binary_data() {
    let data: &[u8] = &[0x00, 0x01, 0x20, 0x7F, 0x80, 0xFF];
    let encoded = encode_bytes(data, &EncodeSet::component());
    let decoded = decode_bytes(&encoded);
    assert_eq!(&*decoded, data);
}

#[test]
fn scan_apis_work() {
    let set = EncodeSet::component();
    assert!(!needs_encoding_raw(b"hello", &set));
    assert!(needs_encoding_raw(b"hello world", &set));
    assert!(!needs_encoding_idempotent(b"foo%20bar", &set));
    assert!(needs_encoding_idempotent(b"100%", &set));

    assert_eq!(encoded_len_raw(b"hello world", &set, false), 5 + 3 + 5);
    assert_eq!(encoded_len_idempotent(b"foo%20bar", &set), 9);
}
