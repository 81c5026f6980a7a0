use pct::EncodeSet;

#[test]
fn empty_set_contains_nothing() {
    let set = EncodeSet::new();
    for b in 0u8..=255 {
        assert!(!set.contains(b), "empty set should not contain {b}");
    }
}

#[test]
fn add_and_remove() {
    let set = EncodeSet::new().add(b'a').add(b'b');
    assert!(set.contains(b'a'));
    assert!(set.contains(b'b'));
    assert!(!set.contains(b'c'));

    let set = set.remove(b'a');
    assert!(!set.contains(b'a'));
    assert!(set.contains(b'b'));
}

#[test]
fn add_range() {
    let set = EncodeSet::new().add_range(b'0', b'9');
    for b in b'0'..=b'9' {
        assert!(set.contains(b), "should contain '{b}'");
    }
    assert!(!set.contains(b'/'));
    assert!(!set.contains(b':'));
}

#[test]
fn component_set_unreserved_not_encoded() {
    let set = EncodeSet::component();
    for b in b'A'..=b'Z' {
        assert!(!set.contains(b), "A-Z should not be in COMPONENT: {b}");
    }
    for b in b'a'..=b'z' {
        assert!(!set.contains(b), "a-z should not be in COMPONENT: {b}");
    }
    for b in b'0'..=b'9' {
        assert!(!set.contains(b), "0-9 should not be in COMPONENT: {b}");
    }
    assert!(!set.contains(b'-'));
    assert!(!set.contains(b'.'));
    assert!(!set.contains(b'_'));
    assert!(!set.contains(b'~'));
}

#[test]
fn component_set_reserved_encoded() {
    let set = EncodeSet::component();
    assert!(set.contains(b' '));
    assert!(set.contains(b'%'));
    assert!(set.contains(b'/'));
    assert!(set.contains(b'?'));
    assert!(set.contains(b'#'));
    assert!(set.contains(b'['));
    assert!(set.contains(b']'));
    assert!(set.contains(b'@'));
    assert!(set.contains(b'!'));
    assert!(set.contains(b'$'));
    assert!(set.contains(b'&'));
    assert!(set.contains(b'\''));
    assert!(set.contains(b'('));
    assert!(set.contains(b')'));
    assert!(set.contains(b'*'));
    assert!(set.contains(b'+'));
    assert!(set.contains(b','));
    assert!(set.contains(b';'));
    assert!(set.contains(b'='));
}

#[test]
fn path_set_keeps_slash() {
    assert!(!EncodeSet::path().contains(b'/'));
    assert!(EncodeSet::component().contains(b'/'));
}

#[test]
fn query_set_keeps_delimiters() {
    let set = EncodeSet::query();
    assert!(!set.contains(b'?'));
    assert!(!set.contains(b'='));
    assert!(!set.contains(b'&'));
}

#[test]
fn fragment_set_keeps_hash() {
    assert!(!EncodeSet::fragment().contains(b'#'));
}

#[test]
fn debug_does_not_allocate() {
    let set = EncodeSet::component();
    let s = format!("{:?}", set.members());
    assert!(s.starts_with('['), "debug_list should start with '[': {s}");
    assert!(s.contains("32"), "COMPONENT contains space (0x20=32): {s}");

    let empty = EncodeSet::new();
    let s2 = format!("{:?}", empty.members());
    assert_eq!(s2, "[]", "empty set should format as []: {s2}");
}

#[test]
fn bits_accessor() {
    let set = EncodeSet::new().add(b' ');
    let bits = set.bits();
    assert_eq!(bits[0] & (1u64 << 32), 1u64 << 32);
}

#[test]
fn whatwg_allows_url_code_points() {
    let set = EncodeSet::whatwg();
    for b in b'A'..=b'Z' {
        assert!(!set.contains(b), "WHATWG should not encode '{b}'");
    }
    for b in b'a'..=b'z' {
        assert!(!set.contains(b), "WHATWG should not encode '{b}'");
    }
    for b in b'0'..=b'9' {
        assert!(!set.contains(b), "WHATWG should not encode '{b}'");
    }
    assert!(!set.contains(b'!'));
    assert!(!set.contains(b'$'));
    assert!(!set.contains(b'&'));
    assert!(!set.contains(b'\''));
    assert!(!set.contains(b'('));
    assert!(!set.contains(b')'));
    assert!(!set.contains(b'*'));
    assert!(!set.contains(b'+'));
    assert!(!set.contains(b','));
    assert!(!set.contains(b'-'));
    assert!(!set.contains(b'.'));
    assert!(!set.contains(b'/'));
    assert!(!set.contains(b':'));
    assert!(!set.contains(b';'));
    assert!(!set.contains(b'='));
    assert!(!set.contains(b'?'));
    assert!(!set.contains(b'@'));
    assert!(!set.contains(b'_'));
    assert!(!set.contains(b'~'));
}

#[test]
fn set_whatwg_encodes_non_url_code_points() {
    let set = EncodeSet::whatwg();
    assert!(set.contains(b' '));
    assert!(set.contains(b'"'));
    assert!(set.contains(b'#'));
    assert!(set.contains(b'<'));
    assert!(set.contains(b'>'));
    assert!(set.contains(b'\\'));
    assert!(set.contains(b'^'));
    assert!(set.contains(b'`'));
    assert!(set.contains(b'{'));
    assert!(set.contains(b'|'));
    assert!(set.contains(b'}'));
}

#[test]
fn whatwg_vs_component_difference() {
    let comp = EncodeSet::component();
    let whatwg = EncodeSet::whatwg();
    assert!(comp.contains(b'!'));
    assert!(!whatwg.contains(b'!'));
    assert!(comp.contains(b'('));
    assert!(!whatwg.contains(b'('));
    assert!(comp.contains(b'+'));
    assert!(!whatwg.contains(b'+'));
    assert!(comp.contains(b','));
    assert!(!whatwg.contains(b','));
    assert!(comp.contains(b'/'));
    assert!(!whatwg.contains(b'/'));
    assert!(comp.contains(b':'));
    assert!(!whatwg.contains(b':'));
    assert!(comp.contains(b';'));
    assert!(!whatwg.contains(b';'));
    assert!(comp.contains(b'='));
    assert!(!whatwg.contains(b'='));
    assert!(comp.contains(b'?'));
    assert!(!whatwg.contains(b'?'));
    assert!(comp.contains(b'@'));
    assert!(!whatwg.contains(b'@'));
}

#[test]
fn predefined_sets_match_their_construction() {
    let all = |s: &EncodeSet| (0u8..=255).filter(|b| s.contains(*b)).collect::<Vec<u8>>();
    let controls = EncodeSet::new().add_range(0x00, 0x1F).add(0x7F);
    assert_eq!(all(&EncodeSet::controls()), all(&controls));
    let non_alnum = EncodeSet::new()
        .add_range(0x00, 0x2F)
        .add_range(0x3A, 0x40)
        .add_range(0x5B, 0x60)
        .add_range(0x7B, 0xFF);
    assert_eq!(all(&EncodeSet::non_alphanumeric()), all(&non_alnum));
    let component = EncodeSet::new()
        .add_range(0x00, 0x2C)
        .add(0x2F)
        .add_range(0x3A, 0x40)
        .add_range(0x5B, 0x5E)
        .add(0x60)
        .add_range(0x7B, 0x7D)
        .add(0x7F)
        .add_range(0x80, 0xFF);
    assert_eq!(all(&EncodeSet::component()), all(&component));
    assert_eq!(all(&EncodeSet::path()), all(&component.remove(b'/')));
    assert_eq!(
        all(&EncodeSet::query()),
        all(&component.remove(b'?').remove(b'=').remove(b'&'))
    );
    assert_eq!(all(&EncodeSet::fragment()), all(&component.remove(b'#')));
    assert_eq!(EncodeSet::component().members(), all(&component));
}

#[test]
fn remove_range_and_default() {
    let set = EncodeSet::component().remove_range(0x80, 0xFF);
    assert!(!set.contains(0x80));
    assert!(!set.contains(0xFF));
    assert!(set.contains(0x7F));
    let d: EncodeSet = Default::default();
    assert!(d.members().is_empty());
    // An empty range leaves the set alone.
    assert_eq!(EncodeSet::new().add_range(9, 3).members(), Vec::<u8>::new());
}
