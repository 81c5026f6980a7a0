use pct::{DecodedChars, EncodeSet, EncodedBytes};

fn drain_bytes(mut it: EncodedBytes<'_>) -> Vec<u8> {
    let mut out = Vec::new();
    while let Some(b) = it.next() {
        out.push(b);
    }
    out
}

fn drain_chars(mut it: DecodedChars<'_>) -> String {
    let mut out = String::new();
    while let Some(c) = it.next() {
        out.push(c);
    }
    out
}

#[test]
fn encoded_bytes_simple() {
    let bytes = drain_bytes(EncodedBytes::new("hello world", &EncodeSet::component()));
    assert_eq!(String::from_utf8(bytes).unwrap(), "hello%20world");
}

#[test]
fn encoded_bytes_noop() {
    let bytes = drain_bytes(EncodedBytes::new("hello", &EncodeSet::component()));
    assert_eq!(String::from_utf8(bytes).unwrap(), "hello");
}

#[test]
fn encoded_bytes_utf8() {
    let bytes = drain_bytes(EncodedBytes::new("café", &EncodeSet::component()));
    assert_eq!(String::from_utf8(bytes).unwrap(), "caf%C3%A9");
}

#[test]
fn encoded_bytes_path_set() {
    let bytes = drain_bytes(EncodedBytes::new("a/b c", &EncodeSet::path()));
    assert_eq!(String::from_utf8(bytes).unwrap(), "a/b%20c");
}

#[test]
fn encoded_bytes_special_chars() {
    let bytes = drain_bytes(EncodedBytes::new("a/b?c#d", &EncodeSet::component()));
    assert_eq!(String::from_utf8(bytes).unwrap(), "a%2Fb%3Fc%23d");
}

#[test]
fn encoded_bytes_binary() {
    let input: &[u8] = &[0x00, 0xFF, 0x20];
    let set = EncodeSet::component();
    let bytes = drain_bytes(EncodedBytes::new_bytes(input, &set));
    assert_eq!(bytes, b"%00%FF%20");
}

#[test]
fn encoded_bytes_step_by_step() {
    let set = EncodeSet::component();
    let mut iter = EncodedBytes::new("a b", &set);
    assert_eq!(iter.next(), Some(b'a'));
    assert_eq!(iter.next(), Some(b'%'));
    assert_eq!(iter.next(), Some(b'2'));
    assert_eq!(iter.next(), Some(b'0'));
    assert_eq!(iter.next(), Some(b'b'));
    assert_eq!(iter.next(), None);
}

#[test]
fn encoded_bytes_empty() {
    let bytes = drain_bytes(EncodedBytes::new("", &EncodeSet::component()));
    assert!(bytes.is_empty());
}

#[test]
fn encoded_bytes_size_hint() {
    let set = EncodeSet::component();
    let iter = EncodedBytes::new("hello world", &set);
    let (min, max) = iter.size_hint();
    assert_eq!(min, 11);
    assert_eq!(max, Some(33));
}

#[test]
fn encoded_bytes_fused() {
    let set = EncodeSet::component();
    let mut iter = EncodedBytes::new("hello", &set);
    while iter.next().is_some() {}
    assert_eq!(iter.next(), None);
    assert_eq!(iter.next(), None);
}

#[test]
fn decoded_chars_simple() {
    let chars = drain_chars(DecodedChars::new("hello%20world"));
    assert_eq!(chars, "hello world");
}

#[test]
fn decoded_chars_noop() {
    let chars = drain_chars(DecodedChars::new("hello"));
    assert_eq!(chars, "hello");
}

#[test]
fn decoded_chars_utf8() {
    let chars = drain_chars(DecodedChars::new("caf%C3%A9"));
    assert_eq!(chars, "café");
}

#[test]
fn decoded_chars_step_by_step() {
    let mut iter = DecodedChars::new("a%20b");
    assert_eq!(iter.next(), Some('a'));
    assert_eq!(iter.next(), Some(' '));
    assert_eq!(iter.next(), Some('b'));
    assert_eq!(iter.next(), None);
}

#[test]
fn decoded_chars_invalid_sequence() {
    let chars = drain_chars(DecodedChars::new("test%GG"));
    assert_eq!(chars, "test\u{FFFD}GG");
}

#[test]
fn decoded_chars_truncated_percent() {
    let chars = drain_chars(DecodedChars::new("test%2"));
    assert_eq!(chars, "test\u{FFFD}2");
}

#[test]
fn decoded_chars_bare_percent_at_end() {
    let chars = drain_chars(DecodedChars::new("50%"));
    assert_eq!(chars, "50\u{FFFD}");
}

#[test]
fn decoded_chars_mixed() {
    let chars = drain_chars(DecodedChars::new("a%20b%21c"));
    assert_eq!(chars, "a b!c");
}

#[test]
fn decoded_chars_cjk() {
    let chars = drain_chars(DecodedChars::new("%E6%97%A5%E6%9C%AC%E8%AA%9E"));
    assert_eq!(chars, "日本語");
}

#[test]
fn decoded_chars_emoji() {
    let chars = drain_chars(DecodedChars::new("%F0%9F%8E%89"));
    assert_eq!(chars, "🎉");
}

#[test]
fn decoded_chars_empty() {
    let chars = drain_chars(DecodedChars::new(""));
    assert!(chars.is_empty());
}

#[test]
fn decoded_chars_incomplete_utf8_at_end() {
    let chars = drain_chars(DecodedChars::new("x%C3"));
    assert_eq!(chars, "x\u{FFFD}");
}

#[test]
fn decoded_chars_fused() {
    let mut iter = DecodedChars::new("hello");
    while iter.next().is_some() {}
    assert_eq!(iter.next(), None);
    assert_eq!(iter.next(), None);
}

#[test]
fn decoded_chars_size_hint() {
    let iter = DecodedChars::new("hello%20world");
    let (min, max) = iter.size_hint();
    assert_eq!(min, 4);
    assert_eq!(max, Some(11));
}

#[test]
fn roundtrip_via_iterators() {
    let original = "hello world! café 日本語";
    let set = EncodeSet::component();
    let encoded_bytes = drain_bytes(EncodedBytes::new(original, &set));
    let encoded_str = String::from_utf8(encoded_bytes).unwrap();
    let decoded = drain_chars(DecodedChars::new(&encoded_str));
    assert_eq!(decoded, original);
}

#[test]
fn decoded_chars_new_bytes_and_invalid_utf8() {
    assert_eq!(drain_chars(DecodedChars::new_bytes(b"a%FFb")), "a\u{FFFD}b");
    // A literal byte cuts an unfinished character short: U+FFFD comes first.
    assert_eq!(drain_chars(DecodedChars::new("%C3x%A9")), "\u{FFFD}x\u{FFFD}");
    // A decoded ASCII byte that cannot continue the waiting bytes is kept.
    assert_eq!(drain_chars(DecodedChars::new("%C3%28")), "\u{FFFD}(");
    // Literal non-ASCII bytes join the decoded bytes.
    assert_eq!(drain_chars(DecodedChars::new("é")), "é");
    assert_eq!(drain_chars(DecodedChars::new_bytes(b"%C3\xA9")), "é");
    assert_eq!(drain_chars(DecodedChars::new("%C3©")), "\u{FFFD}©");
    // One U+FFFD per maximal ill-formed subpart.
    assert_eq!(drain_chars(DecodedChars::new("%F0%90%80A")), "\u{FFFD}A");
    assert_eq!(drain_chars(DecodedChars::new("%ED%A0%80")), "\u{FFFD}\u{FFFD}\u{FFFD}");
    assert_eq!(drain_chars(DecodedChars::new("%C3%")), "\u{FFFD}\u{FFFD}");
}

#[test]
fn decoded_chars_agrees_with_decode_on_any_input() {
    for input in [
        "%C3x%A9", "%C3%28", "é", "%F0%90%80A", "%ED%A0%80", "%C0%AF", "%E2%82", "50%", "%%41",
        "a%zzb%C3", "%F4%90%80%80", "%E0%80%80", "\u{FFFD}%FF%FE", "x%C3%A9%A9",
    ] {
        assert_eq!(drain_chars(DecodedChars::new(input)), pct::decode(input), "input {:?}", input);
    }
}

#[test]
fn decoded_chars_size_hint_bounds_hold_in_every_state() {
    for input in ["%E6%97%A5", "hello%20world", "%C3x", "a%F0%9F%8E%89b", "%C3%", "50%", "é", ""] {
        let total = drain_chars(DecodedChars::new(input)).chars().count();
        let mut it = DecodedChars::new(input);
        let mut yielded = 0;
        loop {
            let (lo, hi) = it.size_hint();
            let left = total - yielded;
            assert!(lo <= left && left <= hi.unwrap(), "input {:?} after {}", input, yielded);
            if it.next().is_none() {
                break;
            }
            yielded += 1;
        }
        assert_eq!(yielded, total);
    }
    assert_eq!(DecodedChars::new("%E6%97%A5").size_hint(), (0, Some(3)));
    let mut it = DecodedChars::new("%C3x");
    assert_eq!(it.size_hint(), (1, Some(2)));
    assert_eq!(it.next(), Some('\u{FFFD}'));
    assert_eq!(it.size_hint(), (0, Some(1)));
}

#[test]
fn encoded_bytes_size_hint_counts_owed_digits() {
    let set = EncodeSet::component();
    let mut it = EncodedBytes::new("a b", &set);
    assert_eq!(it.size_hint(), (3, Some(9)));
    assert_eq!(it.next(), Some(b'a'));
    assert_eq!(it.size_hint(), (2, Some(6)));
    assert_eq!(it.next(), Some(b'%'));
    assert_eq!(it.size_hint(), (3, Some(5)));
    assert_eq!(it.next(), Some(b'2'));
    assert_eq!(it.size_hint(), (2, Some(4)));
    assert_eq!(it.next(), Some(b'0'));
    assert_eq!(it.size_hint(), (1, Some(3)));
    assert_eq!(it.next(), Some(b'b'));
    assert_eq!(it.size_hint(), (0, Some(0)));
    assert_eq!(it.next(), None);
}
