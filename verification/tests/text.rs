use vcf_to_bed::text::{
    append_bytes, bytes_eq, contains_byte, field_of, join_bytes, parse_unsigned, push_decimal,
    split_bytes,
};

fn list(parts: &[&str]) -> Vec<Vec<u8>> {
    parts.iter().map(|p| p.as_bytes().to_vec()).collect()
}

#[test]
fn split_gives_the_fields_between_separators() {
    assert_eq!(split_bytes(b"a|bc|d", b'|'), list(&["a", "bc", "d"]));
}

#[test]
fn split_of_empty_text_is_one_empty_field() {
    assert_eq!(split_bytes(b"", b'|'), list(&[""]));
}

#[test]
fn split_keeps_empty_fields_at_both_ends() {
    assert_eq!(split_bytes(b"|a||", b'|'), list(&["", "a", "", ""]));
}

#[test]
fn split_without_separator_is_the_text_itself() {
    assert_eq!(split_bytes(b"intron_variant", b'&'), list(&["intron_variant"]));
}

#[test]
fn join_puts_the_separator_between_neighbours() {
    assert_eq!(join_bytes(&list(&["G", "T", "C"]), b'/'), b"G/T/C".to_vec());
    assert_eq!(join_bytes(&list(&["G"]), b'/'), b"G".to_vec());
    assert_eq!(join_bytes(&list(&[]), b'/'), b"".to_vec());
}

#[test]
fn join_undoes_split() {
    for text in ["", "a", " a  b ", "1 100 100 rs1 SNV A G 1 x", "   "] {
        let parts = split_bytes(text.as_bytes(), b' ');
        assert_eq!(join_bytes(&parts, b' '), text.as_bytes().to_vec());
    }
}

#[test]
fn split_undoes_join_of_clean_parts() {
    let parts = list(&["chr1", "", "rs7", "A"]);
    assert_eq!(split_bytes(&join_bytes(&parts, b' '), b' '), parts);
}

#[test]
fn field_of_counts_from_zero() {
    assert_eq!(field_of(b"G|missense_variant|MODERATE", b'|', 0), b"G".to_vec());
    assert_eq!(field_of(b"G|missense_variant|MODERATE", b'|', 1), b"missense_variant".to_vec());
    assert_eq!(field_of(b"G|missense_variant|MODERATE", b'|', 2), b"MODERATE".to_vec());
}

#[test]
fn field_of_is_empty_past_the_last_field() {
    assert_eq!(field_of(b"G|missense_variant", b'|', 2), b"".to_vec());
    assert_eq!(field_of(b"", b'|', 21), b"".to_vec());
}

#[test]
fn bytes_eq_compares_content() {
    assert!(bytes_eq(b"SNV", b"SNV"));
    assert!(bytes_eq(b"", b""));
    assert!(!bytes_eq(b"SNV", b"SNv"));
    assert!(!bytes_eq(b"SNV", b"SNVs"));
    assert!(!bytes_eq(b"SNVs", b"SNV"));
}

#[test]
fn contains_byte_finds_a_byte_anywhere() {
    assert!(contains_byte(b"rs1;rs2", b';'));
    assert!(contains_byte(b";", b';'));
    assert!(contains_byte(b"rs1;", b';'));
    assert!(!contains_byte(b"rs1", b';'));
    assert!(!contains_byte(b"", b';'));
}

#[test]
fn append_bytes_adds_behind() {
    let mut out = b"ab".to_vec();
    append_bytes(&mut out, b"cd");
    append_bytes(&mut out, b"");
    assert_eq!(out, b"abcd".to_vec());
}

#[test]
fn push_decimal_writes_digits_without_leading_zeros() {
    for (n, text) in [
        (0u64, "0"),
        (7, "7"),
        (10, "10"),
        (255, "255"),
        (1000, "1000"),
        (32872836, "32872836"),
        (u64::MAX, "18446744073709551615"),
    ] {
        let mut out = b"x".to_vec();
        push_decimal(&mut out, n);
        assert_eq!(out, format!("x{}", text).into_bytes());
    }
}

#[test]
fn parse_unsigned_reads_digits() {
    assert_eq!(parse_unsigned(b"0", 255), Some(0));
    assert_eq!(parse_unsigned(b"5", 255), Some(5));
    assert_eq!(parse_unsigned(b"255", 255), Some(255));
    assert_eq!(parse_unsigned(b"007", 255), Some(7));
    assert_eq!(parse_unsigned(b"+12", 255), Some(12));
    assert_eq!(parse_unsigned(b"18446744073709551615", u64::MAX), Some(u64::MAX));
}

#[test]
fn parse_unsigned_refuses_numbers_above_the_bound() {
    assert_eq!(parse_unsigned(b"256", 255), None);
    assert_eq!(parse_unsigned(b"1000", 255), None);
    assert_eq!(parse_unsigned(b"18446744073709551616", u64::MAX), None);
    assert_eq!(parse_unsigned(b"9", 5), None);
}

#[test]
fn parse_unsigned_refuses_what_is_no_number() {
    assert_eq!(parse_unsigned(b"", 255), None);
    assert_eq!(parse_unsigned(b"+", 255), None);
    assert_eq!(parse_unsigned(b"-1", 255), None);
    assert_eq!(parse_unsigned(b"-0", 255), None);
    assert_eq!(parse_unsigned(b"1a", 255), None);
    assert_eq!(parse_unsigned(b" 1", 255), None);
    assert_eq!(parse_unsigned(b"1 ", 255), None);
    assert_eq!(parse_unsigned(b"++1", 255), None);
    assert_eq!(parse_unsigned(b"999x", 255), None);
}

#[test]
fn parse_unsigned_agrees_with_std_on_u8() {
    for text in ["0", "1", "42", "255", "256", "+3", "-3", "", "+", "00", "0255", "2 5", "a"] {
        let expected = text.parse::<u8>().ok().map(|v| v as u64);
        assert_eq!(parse_unsigned(text.as_bytes(), 255), expected, "{:?}", text);
    }
}

#[test]
fn parse_unsigned_undoes_push_decimal() {
    for n in [0u64, 1, 9, 10, 99, 100, 12345, u64::MAX - 1, u64::MAX] {
        let mut out = Vec::new();
        push_decimal(&mut out, n);
        assert_eq!(parse_unsigned(&out, u64::MAX), Some(n));
    }
}
