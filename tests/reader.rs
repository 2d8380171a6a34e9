use decimal::Reader;

#[test]
fn reader_steps() {
    let mut r = Reader::new("-12.5e+3x", 0);
    assert_eq!(r.cur(), b'-');
    assert_eq!(r.prev(), 0);
    assert_eq!(r.get_sign(), -1);
    assert_eq!(r.get_coef(), Some((1250000000000000, 2)));
    assert_eq!(r.get_exp(), 3);
    assert_eq!(r.len(), 1);
    assert!(!r.match_digit());
    assert!(r.match_c(b'x'));
    assert_eq!(r.prev(), b'x');
    assert_eq!(r.cur(), 0);
}

#[test]
fn reader_matches_ignoring_case() {
    let mut r = Reader::new("InFinity", 0);
    assert!(r.match_str_ignore_case(b"inf"));
    assert_eq!(r.len(), 5);
    assert!(!r.match_str_ignore_case(b"inf"));
    let mut r = Reader::new("in", 0);
    assert!(!r.match_str_ignore_case(b"inf"));
}

#[test]
fn reader_exponent_needs_digits() {
    let mut r = Reader::new("e+", 0);
    assert_eq!(r.get_exp(), 0);
    assert_eq!(r.len(), 2);
    let mut r = Reader::from_bytes(b"E-0012", 0);
    assert_eq!(r.get_exp(), -12);
    assert_eq!(r.get_coef(), None);
}
