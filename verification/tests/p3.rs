use hashlife::P3;

#[test]
fn test_doesnt_exist() {
    assert!(!P3::new(4, 4, 2).within_tree());
    assert!(!P3::new(4, 4, 3).within_tree());
    assert!(!P3::new(-1, -1, 0).within_tree());
}

#[test]
fn test_exists() {
    assert!(P3::new(0, 0, 0).within_tree());
    assert!(P3::new(-4, -4, 3).within_tree());
}

#[test]
fn test_contains() {
    assert!(P3::new(0, 0, 0).contains(P3::new(0, 0, 0)));
    assert!(P3::new(0, 0, 2).contains(P3::new(0, 0, 1)));
    assert!(P3::new(-2, -2, 2).contains(P3::new(-3, -3, 1)));
    assert!(!P3::new(-2, -2, 2).contains(P3::new(-1, -1, 1)));
}
