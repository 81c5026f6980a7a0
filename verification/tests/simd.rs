use pct::{find_first_byte_idempotent_simd, find_first_byte_raw_simd, find_first_byte_simd, EncodeSet};

#[test]
fn simd_find_first_byte_present() {
    let input = b"hello world this is a test %20";
    assert_eq!(find_first_byte_simd(input, b'%'), Some(27));
    assert_eq!(find_first_byte_simd(input, b' '), Some(5));
}

#[test]
fn simd_find_first_byte_absent() {
    let input = b"abcdefghijklmnopqrstuvwxyz012345";
    assert_eq!(find_first_byte_simd(input, b' '), None);
    assert_eq!(find_first_byte_simd(input, b'%'), None);
}

#[test]
fn simd_find_first_byte_short_input() {
    assert_eq!(find_first_byte_simd(b"hi", b'i'), Some(1));
    assert_eq!(find_first_byte_simd(b"hi", b'z'), None);
}

#[test]
fn simd_find_first_byte_at_lane_boundary() {
    let mut input = [b'a'; 33];
    input[32] = b'%';
    assert_eq!(find_first_byte_simd(&input, b'%'), Some(32));

    let mut input = [b'a'; 33];
    input[32] = b'%';
    assert_eq!(find_first_byte_simd(&input, b'%'), Some(32));

    let mut input = [b'a'; 34];
    input[33] = b'%';
    assert_eq!(find_first_byte_simd(&input, b'%'), Some(33));
}

#[test]
fn simd_idempotent_clean_chunk() {
    let set = EncodeSet::component();
    let input = b"abcdefghijklmnopqrstuvwxyz012345";
    assert_eq!(find_first_byte_idempotent_simd(input, &set), None);
}

#[test]
fn simd_idempotent_dirty_chunk() {
    let set = EncodeSet::component();
    let mut input = [b'a'; 32];
    input[10] = b' ';
    assert_eq!(find_first_byte_idempotent_simd(&input, &set), Some(10));
}

#[test]
fn simd_idempotent_pct_sequence_preserved() {
    let set = EncodeSet::component();
    let input = b"aaaaaaaaaaaaaaaaaaaaaaa%20aaa";
    assert_eq!(find_first_byte_idempotent_simd(input, &set), None);
}

#[test]
fn simd_raw_clean_chunk() {
    let set = EncodeSet::component();
    let input = b"abcdefghijklmnopqrstuvwxyz012345";
    assert_eq!(find_first_byte_raw_simd(input, &set), None);
}

#[test]
fn simd_raw_dirty_chunk() {
    let set = EncodeSet::component();
    let mut input = [b'a'; 32];
    input[20] = b'/';
    assert_eq!(find_first_byte_raw_simd(&input, &set), Some(20));
}

#[test]
fn simd_agrees_with_scalar_scans() {
    let sets = [
        EncodeSet::component(),
        EncodeSet::non_alphanumeric(),
        EncodeSet::fragment(),
        EncodeSet::new().add(b'q'),
    ];
    let inputs: [&[u8]; 5] = [
        b"abcdefghijklmnopqrstuvwxyz012345abcdefghijklmnopqrstuvwxyz01234-q",
        b"----------------------------------------------------------------",
        b"abcdefghijklmnopqrstuvwxyz012345%2fabc",
        b"abcdefghijklmnopqrstuvwxyz012345abcdefghijklmnopqrstuvwxyz012345#",
        b"",
    ];
    for set in &sets {
        for input in inputs {
            assert_eq!(
                find_first_byte_idempotent_simd(input, set),
                pct::find_first_byte_idempotent(input, set)
            );
            assert_eq!(
                find_first_byte_raw_simd(input, set),
                pct::find_first_byte_raw(input, set)
            );
        }
    }
    // Fifty `a`s then `%`: the 16-byte half block and the single-byte tail.
    let mut long = [b'a'; 51];
    long[50] = b'%';
    assert_eq!(find_first_byte_simd(&long, b'%'), Some(50));
    long[40] = b'%';
    assert_eq!(find_first_byte_simd(&long, b'%'), Some(40));
}
