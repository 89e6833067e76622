use gun::dedup::{random_soul, soul_from_number, Dedup, AGE};

#[test]
fn unknown_identifier_is_not_seen() {
    let mut d = Dedup::new();
    assert!(!d.sweep_pending());
    assert_eq!(d.check("m1".to_string(), 100), None);
    assert!(!d.sweep_pending());
}

#[test]
fn tracked_identifier_is_seen() {
    let mut d = Dedup::new();
    assert_eq!(d.track("m1".to_string(), 100), "m1");
    assert!(d.sweep_pending());
    assert_eq!(d.check("m1".to_string(), 200), Some("m1".to_string()));
    assert_eq!(d.check("m2".to_string(), 200), None);
}

#[test]
fn sweep_forgets_old_identifiers_only() {
    let mut d = Dedup::new();
    d.track("old".to_string(), 1000);
    d.track("new".to_string(), 5000);
    d.sweep(1000 + AGE);
    assert!(!d.sweep_pending());
    assert_eq!(d.check("old".to_string(), 10000), None);
    assert_eq!(d.check("new".to_string(), 10000), Some("new".to_string()));
}

#[test]
fn sweep_keeps_identifier_just_before_age() {
    let mut d = Dedup::new();
    d.track("m".to_string(), 1000);
    d.sweep(1000 + AGE - 1);
    assert_eq!(d.check("m".to_string(), 2000), Some("m".to_string()));
    d.sweep(0);
    assert_eq!(d.check("m".to_string(), 2000), Some("m".to_string()));
}

#[test]
fn identifiers_from_numbers() {
    assert_eq!(soul_from_number(1296), "001");
    assert_eq!(soul_from_number(1297), "101");
    assert_eq!(soul_from_number(46655), "zzz");
    assert_eq!(soul_from_number(36 * 36 * 11 + 36 * 10 + 35), "zab");
}

#[test]
fn random_identifiers_are_three_base36_digits() {
    for _ in 0..200 {
        let s = random_soul();
        let cs: Vec<char> = s.chars().collect();
        assert_eq!(cs.len(), 3);
        assert!(cs.iter().all(|c| c.is_ascii_digit() || c.is_ascii_lowercase()));
        assert_ne!(cs[2], '0');
    }
}
