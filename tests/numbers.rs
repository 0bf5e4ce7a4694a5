use rsfqc::numbers::pretty_print_int;

#[test]
fn small_counts_have_no_separator() {
    assert_eq!(pretty_print_int(&0), "0");
    assert_eq!(pretty_print_int(&7), "7");
    assert_eq!(pretty_print_int(&999), "999");
}

#[test]
fn thousands_are_separated() {
    assert_eq!(pretty_print_int(&1000), "1,000");
    assert_eq!(pretty_print_int(&100000), "100,000");
    assert_eq!(pretty_print_int(&1234567), "1,234,567");
    assert_eq!(pretty_print_int(&1002003), "1,002,003");
}
