use rain_watch::decimal::{
    magnitude_of, read_digits, read_fixed7, read_i64, read_u64, with_sign, write_fixed7, write_i64,
    write_nat, write_padded,
};
use rain_watch::tokens::{slice_of, split, Separator};

fn fixed7(v: i64) -> Vec<u8> {
    let mut out = Vec::new();
    write_fixed7(&mut out, v);
    out
}

fn signed(v: i64) -> Vec<u8> {
    let mut out = Vec::new();
    write_i64(&mut out, v);
    out
}

fn unsigned(v: u64) -> Vec<u8> {
    let mut out = Vec::new();
    write_nat(&mut out, v);
    out
}

#[test]
fn digits_are_read_up_to_the_limit() {
    assert_eq!(read_digits(b"0", 0), Some(0));
    assert_eq!(read_digits(b"007", 7), Some(7));
    assert_eq!(read_digits(b"8", 7), None);
    assert_eq!(read_digits(b"", 7), None);
    assert_eq!(read_digits(b"12a", 1000), None);
    assert_eq!(read_digits(b"18446744073709551615", u64::MAX), Some(u64::MAX));
    assert_eq!(read_digits(b"18446744073709551616", u64::MAX), None);
    assert_eq!(read_digits(b"000000000000000000000000000000000000042", 42), Some(42));
    assert_eq!(read_digits(b"99999999999999999999999999999999999999", u64::MAX), None);
}

#[test]
fn unsigned_numbers_take_a_plus_but_no_minus() {
    assert_eq!(read_u64(b"1700000000"), Some(1_700_000_000));
    assert_eq!(read_u64(b"+12"), Some(12));
    assert_eq!(read_u64(b"-12"), None);
    assert_eq!(read_u64(b"+"), None);
    assert_eq!(read_u64(b""), None);
    assert_eq!(read_u64(b"++1"), None);
    assert_eq!(read_u64(b"1 "), None);
}

#[test]
fn signed_numbers_cover_the_whole_range() {
    assert_eq!(read_i64(b"42"), Some(42));
    assert_eq!(read_i64(b"-42"), Some(-42));
    assert_eq!(read_i64(b"+42"), Some(42));
    assert_eq!(read_i64(b"-0"), Some(0));
    assert_eq!(read_i64(b"9223372036854775807"), Some(i64::MAX));
    assert_eq!(read_i64(b"9223372036854775808"), None);
    assert_eq!(read_i64(b"-9223372036854775808"), Some(i64::MIN));
    assert_eq!(read_i64(b"-9223372036854775809"), None);
    assert_eq!(read_i64(b"-"), None);
    assert_eq!(read_i64(b"+-1"), None);
    assert_eq!(read_i64(b"4 2"), None);
}

#[test]
fn fixed_point_numbers_are_read_in_ten_millionths() {
    assert_eq!(read_fixed7(b"59.4370000"), Some(594_370_000));
    assert_eq!(read_fixed7(b"59.437"), Some(594_370_000));
    assert_eq!(read_fixed7(b"-24.7536"), Some(-247_536_000));
    assert_eq!(read_fixed7(b"+1.5"), Some(15_000_000));
    assert_eq!(read_fixed7(b"3"), Some(30_000_000));
    assert_eq!(read_fixed7(b"3."), Some(30_000_000));
    assert_eq!(read_fixed7(b"0.0000001"), Some(1));
    assert_eq!(read_fixed7(b"-0.0000000"), Some(0));
    assert_eq!(read_fixed7(b"000.1"), Some(1_000_000));
}

#[test]
fn fixed_point_numbers_outside_the_grammar_are_not_read() {
    assert_eq!(read_fixed7(b""), None);
    assert_eq!(read_fixed7(b"."), None);
    assert_eq!(read_fixed7(b".5"), None);
    assert_eq!(read_fixed7(b"-.5"), None);
    assert_eq!(read_fixed7(b"1.2.3"), None);
    assert_eq!(read_fixed7(b"1.00000000"), None);
    assert_eq!(read_fixed7(b"1,5"), None);
    assert_eq!(read_fixed7(b"1e5"), None);
    assert_eq!(read_fixed7(b"nan"), None);
    assert_eq!(read_fixed7(b"inf"), None);
    assert_eq!(read_fixed7(b"--1"), None);
    assert_eq!(read_fixed7(b"1.-5"), None);
}

#[test]
fn fixed_point_numbers_stop_at_the_ends_of_the_range() {
    assert_eq!(read_fixed7(b"922337203685.4775807"), Some(i64::MAX));
    assert_eq!(read_fixed7(b"922337203685.4775808"), None);
    assert_eq!(read_fixed7(b"-922337203685.4775808"), Some(i64::MIN));
    assert_eq!(read_fixed7(b"-922337203685.4775809"), None);
    assert_eq!(read_fixed7(b"922337203686"), None);
    assert_eq!(read_fixed7(b"99999999999999999999999999.0"), None);
}

#[test]
fn fixed_point_numbers_are_written_with_seven_places() {
    assert_eq!(fixed7(594_370_000), b"59.4370000".to_vec());
    assert_eq!(fixed7(-247_536_000), b"-24.7536000".to_vec());
    assert_eq!(fixed7(0), b"0.0000000".to_vec());
    assert_eq!(fixed7(1), b"0.0000001".to_vec());
    assert_eq!(fixed7(-1), b"-0.0000001".to_vec());
    assert_eq!(fixed7(10_000_000), b"1.0000000".to_vec());
    assert_eq!(fixed7(i64::MAX), b"922337203685.4775807".to_vec());
    assert_eq!(fixed7(i64::MIN), b"-922337203685.4775808".to_vec());
}

#[test]
fn written_fixed_point_numbers_read_back() {
    let samples = [0, 1, -1, 9_999_999, 10_000_000, -10_000_001, 594_370_000, -1_800_000_000, i64::MAX, i64::MIN];
    for v in samples {
        assert_eq!(read_fixed7(&fixed7(v)), Some(v));
    }
}

#[test]
fn whole_numbers_are_written_without_leading_zeros() {
    assert_eq!(unsigned(0), b"0".to_vec());
    assert_eq!(unsigned(9), b"9".to_vec());
    assert_eq!(unsigned(10), b"10".to_vec());
    assert_eq!(unsigned(u64::MAX), b"18446744073709551615".to_vec());
    assert_eq!(signed(0), b"0".to_vec());
    assert_eq!(signed(-1), b"-1".to_vec());
    assert_eq!(signed(i64::MAX), b"9223372036854775807".to_vec());
    assert_eq!(signed(i64::MIN), b"-9223372036854775808".to_vec());
}

#[test]
fn written_whole_numbers_read_back() {
    for v in [0u64, 1, 10, 14400, 1_700_000_000, u64::MAX] {
        assert_eq!(read_u64(&unsigned(v)), Some(v));
    }
    for v in [0i64, 1, -1, 42, -42, i64::MAX, i64::MIN] {
        assert_eq!(read_i64(&signed(v)), Some(v));
    }
}

#[test]
fn padded_numbers_keep_their_zeros() {
    let mut out = b"x".to_vec();
    write_padded(&mut out, 42, 7);
    assert_eq!(out, b"x0000042".to_vec());
    let mut out = Vec::new();
    write_padded(&mut out, 1_234_567, 4);
    assert_eq!(out, b"4567".to_vec());
    let mut out = Vec::new();
    write_padded(&mut out, 5, 0);
    assert_eq!(out, Vec::<u8>::new());
}

#[test]
fn magnitudes_and_signs_fit_together() {
    assert_eq!(magnitude_of(0), 0);
    assert_eq!(magnitude_of(-5), 5);
    assert_eq!(magnitude_of(i64::MAX), 9_223_372_036_854_775_807);
    assert_eq!(magnitude_of(i64::MIN), 9_223_372_036_854_775_808);
    assert_eq!(with_sign(false, 5), 5);
    assert_eq!(with_sign(true, 5), -5);
    assert_eq!(with_sign(true, 0), 0);
    assert_eq!(with_sign(true, 9_223_372_036_854_775_808), i64::MIN);
}

#[test]
fn split_finds_the_pieces_between_separators() {
    let text = b"  42 59.4370000\t24.7536000  ";
    let pieces = split(text, Separator::Whitespace);
    assert_eq!(pieces, vec![(2, 4), (5, 15), (16, 26)]);
    assert_eq!(slice_of(text, pieces[1]), b"59.4370000");
    assert_eq!(split(b"", Separator::Newline), Vec::<(usize, usize)>::new());
    assert_eq!(split(b"\n\n", Separator::Newline), Vec::<(usize, usize)>::new());
    assert_eq!(split(b"a b\n\nc", Separator::Newline), vec![(0, 3), (5, 6)]);
    assert_eq!(split(b"1.5", Separator::Point), vec![(0, 1), (2, 3)]);
}

#[test]
fn separators_match_their_bytes_only() {
    for b in 0u8..=255 {
        assert_eq!(Separator::Newline.test(b), b == b'\n');
        assert_eq!(Separator::Point.test(b), b == b'.');
        assert_eq!(
            Separator::Whitespace.test(b),
            b == b' ' || b == b'\t' || b == b'\n' || b == 0x0b || b == 0x0c || b == b'\r'
        );
    }
}
