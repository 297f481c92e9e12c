use ellidri::util::{
    hash_password, match_mask, new_id_rng, new_message_id, time, verify_password_hash, MaskSet,
};

#[test]
fn test_mask_match() {
    let cases = [
        ("abc", "abc", true),
        ("*", "abc", true),
        ("*c", "abc", true),
        ("a*", "a", true),
        ("a*", "abc", true),
        ("a*/b", "abc/b", true),
        ("a*b?c*x", "abxbbxdbxebxczzx", true),
        ("a*b?c*x", "abxbbxdbxebxczzy", false),
        ("a?b", "a???b", false),
        ("a???b", "a???b", true),
        ("*x", "xxx", true),
    ];

    for (mask, s, is_match) in &cases {
        assert_eq!(match_mask(mask, s), *is_match, "match_mask({mask:?}, {s:?})");
    }
}

#[test]
fn test_password_verification() {
    let hashed_password_one = hash_password("hello world").unwrap();
    let hashed_password_two = hash_password("foo bar").unwrap();

    assert!(verify_password_hash(&hashed_password_one, "hello world").is_ok());
    assert!(verify_password_hash(&hashed_password_two, "foo bar").is_ok());
    assert!(verify_password_hash(&hashed_password_two, "hello world").is_err());
}

#[test]
fn test_verify_rejects_garbage_hash() {
    assert!(verify_password_hash("not a phc string", "pw").is_err());
}

#[test]
fn test_mask_set_insert_twice() {
    let mut set = MaskSet::new();
    assert!(set.insert("*!*@host"));
    assert!(!set.insert("*!*@host"));
    assert!(set.insert("other!*@*"));
    assert_eq!(set.masks().len(), 2);
}

#[test]
fn test_mask_set_remove_absent() {
    let mut set = MaskSet::new();
    assert!(!set.remove("nobody!*@*"));
    assert!(set.insert("a*"));
    assert!(set.remove("a*"));
    assert!(!set.remove("a*"));
    assert_eq!(set.masks().len(), 0);
}

#[test]
fn test_mask_set_is_match() {
    let mut set = MaskSet::new();
    assert!(!set.is_match("anyone"));
    set.insert("bad!*@*");
    set.insert("*@evil.example");
    assert!(set.is_match("bad!user@host"));
    assert!(set.is_match("someone@evil.example"));
    assert!(!set.is_match("good!user@host"));
}

#[test]
fn test_mask_set_keeps_insertion_order() {
    let mut set = MaskSet::new();
    set.insert("b");
    set.insert("a");
    set.insert("c");
    set.remove("a");
    let masks: Vec<&str> = set.masks().iter().map(|m| m.as_str()).collect();
    assert_eq!(masks, ["b", "c"]);
}

#[test]
fn test_new_message_id_length() {
    let mut rng = new_id_rng();
    let a = new_message_id(&mut rng);
    let b = new_message_id(&mut rng);
    assert_eq!(a.len(), 32);
    assert_eq!(b.len(), 32);
    assert_ne!(a, b);
}

#[test]
fn test_time_is_after_2020() {
    // 2020-01-01 is 1577836800 seconds after the epoch.
    assert!(time() > 1_577_836_800);
}
