use rotation_index::codec::number_infix;
use rotation_index::codec::parse_index;

#[test]
fn format_is_r_plus_five_zero_padded_digits() {
    assert_eq!(number_infix(0), "r00000");
    assert_eq!(number_infix(1), "r00001");
    assert_eq!(number_infix(3), "r00003");
    assert_eq!(number_infix(42), "r00042");
    assert_eq!(number_infix(760), "r00760");
    assert_eq!(number_infix(9999), "r09999");
    assert_eq!(number_infix(99999), "r99999");
}

#[test]
fn format_keeps_all_digits_above_the_padded_width() {
    assert_eq!(number_infix(100000), "r100000");
    assert_eq!(number_infix(1000000), "r1000000");
    assert_eq!(number_infix(u32::MAX), "r4294967295");
}

#[test]
fn parse_reads_back_every_formatted_index_in_the_padded_range() {
    for i in 0u32..=99999 {
        let infix = number_infix(i);
        assert_eq!(parse_index(&infix[1..]), Some(i));
    }
}

#[test]
fn parse_reads_back_formatted_indexes_beyond_the_padded_range() {
    for i in [100000u32, 100001, 123456, 99999999, u32::MAX - 1, u32::MAX] {
        let infix = number_infix(i);
        assert_eq!(parse_index(&infix[1..]), Some(i));
    }
}

#[test]
fn format_orders_lexically_within_the_padded_range() {
    for i in 0u32..99999 {
        assert!(number_infix(i) < number_infix(i + 1));
    }
    assert!(number_infix(7) < number_infix(99999));
    assert!(number_infix(0) < number_infix(12345));
}

#[test]
fn parse_accepts_plain_and_plus_signed_digit_runs() {
    assert_eq!(parse_index("0"), Some(0));
    assert_eq!(parse_index("00042"), Some(42));
    assert_eq!(parse_index("+7"), Some(7));
    assert_eq!(parse_index("4294967295"), Some(4294967295));
}

#[test]
fn parse_rejects_what_is_not_a_u32() {
    assert_eq!(parse_index(""), None);
    assert_eq!(parse_index("+"), None);
    assert_eq!(parse_index("12a"), None);
    assert_eq!(parse_index("a12"), None);
    assert_eq!(parse_index("-1"), None);
    assert_eq!(parse_index(" 1"), None);
    assert_eq!(parse_index("4294967296"), None);
    assert_eq!(parse_index("99999999999999999999"), None);
}
