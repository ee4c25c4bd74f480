use file_ripper::is_any_key_down;

#[test]
fn no_key_down_is_no_trigger() {
    assert!(!is_any_key_down(0));
}

#[test]
fn any_key_down_is_a_trigger() {
    assert!(is_any_key_down(1));
    assert!(is_any_key_down(7));
    assert!(is_any_key_down(usize::MAX));
}
