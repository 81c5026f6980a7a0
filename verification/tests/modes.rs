use pct::Pct;

#[test]
fn rfc3986_encode_basic() {
    assert_eq!(Pct::encode_rfc3986("hello world"), "hello%20world");
    assert_eq!(Pct::encode_rfc3986("a+b"), "a%2Bb");
    assert_eq!(Pct::encode_rfc3986("café"), "caf%C3%A9");
    assert_eq!(Pct::encode_rfc3986("a/b?c#d"), "a%2Fb%3Fc%23d");
}

#[test]
fn whatwg_encode_basic() {
    assert_eq!(Pct::encode_whatwg("hello world"), "hello%20world");
    assert_eq!(Pct::encode_whatwg("keep'safe"), "keep'safe");
    assert_eq!(Pct::encode_whatwg("a+b"), "a+b");
    assert_eq!(Pct::encode_whatwg("price=100&sale"), "price=100&sale");
    assert_eq!(Pct::encode_whatwg("path/to/file"), "path/to/file");
    assert_eq!(Pct::encode_whatwg("(parentheses)"), "(parentheses)");
}

#[test]
fn modes_whatwg_encodes_non_url_code_points() {
    assert_eq!(Pct::encode_whatwg("say \"hi\""), "say%20%22hi%22");
    assert_eq!(Pct::encode_whatwg("a<b>c"), "a%3Cb%3Ec");
    assert_eq!(Pct::encode_whatwg("back\\slash"), "back%5Cslash");
    assert_eq!(Pct::encode_whatwg("a^b"), "a%5Eb");
    assert_eq!(Pct::encode_whatwg("a`b"), "a%60b");
    assert_eq!(Pct::encode_whatwg("{a|b}"), "%7Ba%7Cb%7D");
}

#[test]
fn html_form_encode_basic() {
    assert_eq!(Pct::encode_html_form("hello world"), "hello+world");
    assert_eq!(Pct::encode_html_form("a+b"), "a%2Bb");
    assert_eq!(Pct::encode_html_form("key=val&x=1"), "key%3Dval%26x%3D1");
}

#[test]
fn rfc3986_decode_basic() {
    assert_eq!(Pct::decode_rfc3986("hello%20world"), "hello world");
    assert_eq!(Pct::decode_rfc3986("caf%C3%A9"), "café");
}

#[test]
fn whatwg_decode_basic() {
    assert_eq!(Pct::decode_whatwg("hello%20world"), "hello world");
    assert_eq!(Pct::decode_whatwg("caf%C3%A9"), "café");
}

#[test]
fn html_form_decode_basic() {
    assert_eq!(Pct::decode_html_form("hello+world"), "hello world");
    assert_eq!(Pct::decode_html_form("a%2Bb"), "a+b");
}

#[test]
fn roundtrip_rfc3986() {
    let original = "hello world!@# café";
    let encoded = Pct::encode_rfc3986(original);
    let decoded = Pct::decode_rfc3986(&encoded);
    assert_eq!(&*decoded, original);
}

#[test]
fn roundtrip_whatwg() {
    let original = "hello (test) + more! 🎉";
    let encoded = Pct::encode_whatwg(original);
    let decoded = Pct::decode_whatwg(&encoded);
    assert_eq!(&*decoded, original);
}

#[test]
fn roundtrip_html_form() {
    let original = "hello world+test=foo&bar";
    let encoded = Pct::encode_html_form(original);
    let decoded = Pct::decode_html_form(&encoded);
    assert_eq!(&*decoded, original);
}

#[test]
fn rfc3986_vs_whatwg_difference() {
    let input = "keep'safe(yes)!";
    let rfc = Pct::encode_rfc3986(input);
    let whatwg = Pct::encode_whatwg(input);
    assert_ne!(rfc, whatwg);
    assert!(rfc.contains("%21"));
    assert!(rfc.contains("%27"));
    assert!(rfc.contains("%28"));
    assert!(rfc.contains("%29"));
    assert_eq!(whatwg, input);
}
