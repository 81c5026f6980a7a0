use pct::{const_encode_to_buf, const_encoded_len, EncodeSet, CONST_ENCODE_BUF_SIZE, MAX_CONST_INPUT_LEN};

#[test]
fn const_encode_const_encode_basic() {
    let mut buf = [0u8; 64];
    let len = const_encode_to_buf(b"hello world", &EncodeSet::component(), &mut buf);
    assert_eq!(&buf[..len], b"hello%20world");
}

#[test]
fn const_encode_const_encode_noop() {
    let mut buf = [0u8; 64];
    let len = const_encode_to_buf(b"hello", &EncodeSet::component(), &mut buf);
    assert_eq!(&buf[..len], b"hello");
    assert_eq!(len, 5);
}

#[test]
fn const_encode_const_encode_special_chars() {
    let mut buf = [0u8; 128];
    let len = const_encode_to_buf(b"a/b?c#d", &EncodeSet::component(), &mut buf);
    assert_eq!(&buf[..len], b"a%2Fb%3Fc%23d");
}

#[test]
fn const_encode_const_encode_utf8() {
    let mut buf = [0u8; 64];
    let len = const_encode_to_buf("café".as_bytes(), &EncodeSet::component(), &mut buf);
    assert_eq!(&buf[..len], b"caf%C3%A9");
}

#[test]
fn const_encode_binary() {
    let mut buf = [0u8; 64];
    let input: &[u8] = &[0x00, 0xFF, 0x20];
    let len = const_encode_to_buf(input, &EncodeSet::component(), &mut buf);
    assert_eq!(&buf[..len], b"%00%FF%20");
}

#[test]
fn const_encoded_len_matches() {
    let cases: &[&[u8]] = &[
        b"hello",
        b"hello world",
        b"a/b?c#d",
        "café".as_bytes(),
        &[0x00, 0xFF, 0x20],
    ];
    let set = EncodeSet::component();
    for &input in cases {
        let mut buf = [0u8; 256];
        let len = const_encode_to_buf(input, &set, &mut buf);
        assert_eq!(
            len,
            const_encoded_len(input, &set),
            "length mismatch for input: {input:?}"
        );
    }
}

#[test]
fn const_encoded_len_path_set() {
    let input = b"a/b c";
    let set = EncodeSet::path();
    assert_eq!(const_encoded_len(input, &set), 7);
}

#[test]
fn const_encode_const_encode_whatwg_set() {
    let mut buf = [0u8; 128];
    let set = EncodeSet::whatwg();
    let len = const_encode_to_buf(b"keep'safe(yes)!", &set, &mut buf);
    assert_eq!(&buf[..len], b"keep'safe(yes)!");
    let len2 = const_encode_to_buf(b"say \"hello\"", &set, &mut buf);
    assert_eq!(&buf[..len2], b"say%20%22hello%22");
}

#[test]
fn const_encode_leaves_rest_of_buffer() {
    let mut buf = [b'#'; 8];
    let len = const_encode_to_buf(b"a b", &EncodeSet::component(), &mut buf);
    assert_eq!(len, 5);
    assert_eq!(&buf, b"a%20b###");
    assert_eq!(CONST_ENCODE_BUF_SIZE, 3 * MAX_CONST_INPUT_LEN);
    let worst = [0xFFu8; MAX_CONST_INPUT_LEN];
    assert_eq!(const_encoded_len(&worst, &EncodeSet::component()), CONST_ENCODE_BUF_SIZE);
}
