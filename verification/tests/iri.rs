use pct::encode_iri;

#[test]
fn iri_ascii_unreserved() {
    assert_eq!(encode_iri("abc123-._~"), "abc123-._~");
}

#[test]
fn iri_ascii_reserved() {
    assert_eq!(encode_iri("hello world"), "hello%20world");
    assert_eq!(encode_iri("a/b"), "a%2Fb");
    assert_eq!(encode_iri("?#&"), "%3F%23%26");
}

#[test]
fn iri_non_ascii_latin() {
    assert_eq!(encode_iri("café"), "caf%C3%A9");
}

#[test]
fn iri_cjk() {
    assert_eq!(encode_iri("日本語"), "%E6%97%A5%E6%9C%AC%E8%AA%9E");
}

#[test]
fn iri_emoji() {
    assert_eq!(encode_iri("🎉"), "%F0%9F%8E%89");
}

#[test]
fn iri_mixed() {
    assert_eq!(
        encode_iri("hello café/日本"),
        "hello%20caf%C3%A9%2F%E6%97%A5%E6%9C%AC"
    );
}

#[test]
fn iri_matches_raw_component_encoding() {
    let input = "100% ß/€🎉";
    assert_eq!(
        encode_iri(input),
        pct::encode_raw(input, &pct::EncodeSet::component())
    );
}
