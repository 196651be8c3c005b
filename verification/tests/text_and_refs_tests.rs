use noters::refs::extract_references;
use noters::text::{parse_u16, u16_to_string};

#[test]
fn parse_u16_accepts_plain_numbers() {
    assert_eq!(parse_u16("0"), Some(0));
    assert_eq!(parse_u16("5"), Some(5));
    assert_eq!(parse_u16("65535"), Some(65535));
    assert_eq!(parse_u16("005"), Some(5));
}

#[test]
fn parse_u16_accepts_leading_plus() {
    assert_eq!(parse_u16("+5"), Some(5));
    assert_eq!(parse_u16("+0"), Some(0));
}

#[test]
fn parse_u16_rejects_garbage_and_overflow() {
    assert_eq!(parse_u16(""), None);
    assert_eq!(parse_u16("+"), None);
    assert_eq!(parse_u16("65536"), None);
    assert_eq!(parse_u16("99999999999"), None);
    assert_eq!(parse_u16("12a"), None);
    assert_eq!(parse_u16("-1"), None);
    assert_eq!(parse_u16(" 5"), None);
    assert_eq!(parse_u16("1 2"), None);
}

#[test]
fn u16_to_string_renders_decimal() {
    assert_eq!(u16_to_string(0), "0");
    assert_eq!(u16_to_string(42), "42");
    assert_eq!(u16_to_string(65535), "65535");
}

#[test]
fn references_are_extracted_in_order_with_duplicates() {
    assert_eq!(extract_references("see [[1]] and [[2]]"), vec![1, 2]);
    assert_eq!(extract_references("[[7]] [[7]]"), vec![7, 7]);
    assert_eq!(extract_references("no refs here"), Vec::<u16>::new());
    assert_eq!(extract_references(""), Vec::<u16>::new());
}

#[test]
fn reference_tokens_are_whitespace_delimited() {
    // The brackets must make up a whole whitespace-delimited token.
    assert_eq!(extract_references("a[[1]]"), Vec::<u16>::new());
    assert_eq!(extract_references("[[1]]b"), Vec::<u16>::new());
    assert_eq!(extract_references("x [[1]]\ny [[2]]\t[[3]]"), vec![1, 2, 3]);
}

#[test]
fn malformed_reference_tokens_are_skipped() {
    assert_eq!(extract_references("[[]]"), Vec::<u16>::new());
    assert_eq!(extract_references("[[abc]]"), Vec::<u16>::new());
    assert_eq!(extract_references("[[1]"), Vec::<u16>::new());
    assert_eq!(extract_references("[1]]"), Vec::<u16>::new());
    assert_eq!(extract_references("[[99999]]"), Vec::<u16>::new());
    assert_eq!(extract_references("[[1 2]]"), Vec::<u16>::new());
}

#[test]
fn reference_tokens_may_carry_a_plus_sign() {
    // `str::parse::<u16>` accepts a leading plus, so the resolver does too.
    assert_eq!(extract_references("[[+3]]"), vec![3]);
}
