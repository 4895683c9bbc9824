use prefix_range::prefixed_set;
use prefix_range::upper_bound_from_prefix;
use prefix_range::StrSet;

fn set_of(members: &[&str]) -> StrSet {
    let mut set = StrSet::new();
    for m in members {
        set.insert(m.to_string());
    }
    set
}

#[test]
fn it_works() {
    let set = set_of(&["Hi", "Hey", "Hello", "heyyy", "", "H"]);
    let set = prefixed_set(set, "H");
    assert_eq!(set.len(), 4);
    assert!(!set.contains("heyyy"));
}

#[test]
fn maxicode() {
    let set = set_of(&[
        "Hi",
        "Hey",
        "Hello",
        "heyyy",
        "H\u{10FFFF}eyyy",
        "H\u{10FFFF}",
        "I",
        "",
        "H",
    ]);
    let set = prefixed_set(set, "H\u{10FFFF}");
    assert_eq!(set.len(), 2);
    assert!(!set.contains("I"));
}

#[test]
fn bound_increments_last_scalar() {
    assert_eq!(upper_bound_from_prefix("bbb"), Some("bbc".to_string()));
    assert_eq!(upper_bound_from_prefix("H"), Some("I".to_string()));
}

#[test]
fn bound_empty_prefix_is_unbounded() {
    assert_eq!(upper_bound_from_prefix(""), None);
}

#[test]
fn bound_all_max_is_unbounded() {
    assert_eq!(upper_bound_from_prefix("\u{10FFFF}"), None);
    assert_eq!(upper_bound_from_prefix("\u{10FFFF}\u{10FFFF}"), None);
}

#[test]
fn bound_skips_surrogate_range() {
    assert_eq!(
        upper_bound_from_prefix("a\u{D7FF}"),
        Some("a\u{E000}".to_string())
    );
}

#[test]
fn bound_drops_trailing_max_scalars() {
    assert_eq!(upper_bound_from_prefix("H\u{10FFFF}"), Some("I".to_string()));
    assert_eq!(
        upper_bound_from_prefix("ab\u{10FFFF}\u{10FFFF}"),
        Some("ac".to_string())
    );
}

#[test]
fn round_trip_extraction() {
    assert_eq!(upper_bound_from_prefix("bbb"), Some("bbc".to_string()));
    let set = set_of(&["bbabb", "bbbcc", "bbbab", "bbb", "bbc"]);
    let set = prefixed_set(set, "bbb");
    assert_eq!(set.len(), 3);
    assert_eq!(set.get(0).as_str(), "bbb");
    assert_eq!(set.get(1).as_str(), "bbbab");
    assert_eq!(set.get(2).as_str(), "bbbcc");
}

#[test]
fn mixed_casing_near_misses() {
    assert_eq!(upper_bound_from_prefix("H"), Some("I".to_string()));
    let set = set_of(&["Hi", "Hey", "Hello", "heyyy", "", "H"]);
    let set = prefixed_set(set, "H");
    assert_eq!(set.len(), 4);
    assert_eq!(set.get(0).as_str(), "H");
    assert_eq!(set.get(1).as_str(), "Hello");
    assert_eq!(set.get(2).as_str(), "Hey");
    assert_eq!(set.get(3).as_str(), "Hi");
    assert!(!set.contains("heyyy"));
}

#[test]
fn max_scalar_members_extracted() {
    let set = set_of(&["H\u{10FFFF}eyyy", "H\u{10FFFF}", "I"]);
    let set = prefixed_set(set, "H\u{10FFFF}");
    assert_eq!(set.len(), 2);
    assert!(set.contains("H\u{10FFFF}"));
    assert!(set.contains("H\u{10FFFF}eyyy"));
    assert!(!set.contains("I"));
}

#[test]
fn extraction_is_idempotent() {
    let set = set_of(&["bbabb", "bbbcc", "bbbab", "bbb", "bbc"]);
    let once = prefixed_set(set, "bbb");
    let mut first: Vec<String> = Vec::new();
    for i in 0..once.len() {
        first.push(once.get(i).clone());
    }
    let twice = prefixed_set(once, "bbb");
    assert_eq!(twice.len(), first.len());
    for i in 0..twice.len() {
        assert_eq!(twice.get(i), &first[i]);
    }
}

#[test]
fn longer_prefix_extracts_subset() {
    let members = ["a", "ab", "abc", "abd", "b", "ba"];
    let coarse = prefixed_set(set_of(&members), "ab");
    let fine = prefixed_set(set_of(&members), "abc");
    assert_eq!(coarse.len(), 3);
    assert_eq!(fine.len(), 1);
    for i in 0..fine.len() {
        assert!(coarse.contains(fine.get(i).as_str()));
    }
}

#[test]
fn empty_prefix_extracts_everything() {
    let set = set_of(&["", "a", "b"]);
    let set = prefixed_set(set, "");
    assert_eq!(set.len(), 3);
    assert!(set.contains(""));
    assert!(set.contains("a"));
    assert!(set.contains("b"));
}

#[test]
fn insert_does_not_duplicate() {
    let mut set = StrSet::new();
    set.insert("abc".to_string());
    set.insert("abc".to_string());
    set.insert("abd".to_string());
    assert_eq!(set.len(), 2);
    assert!(set.contains("abc"));
    assert!(!set.contains("ab"));
}
