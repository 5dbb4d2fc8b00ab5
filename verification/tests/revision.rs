use quelle::envelope::ParseResult;
use quelle::revision::{
    assert_grammar_revision_internal, assert_structured_revision_internal, confirms_revision,
    decimal_of, dotted_statement_of, get_library_revision, hex_statement_of, parts_in_range,
    split_revision, structured_statement_of, two_digits_of, Parts,
};
use quelle::tree::Parsed;

fn node(rule: &str, children: Vec<Parsed>) -> Parsed {
    Parsed { rule: rule.to_string(), text: String::new(), children }
}

fn confirmed() -> ParseResult {
    ParseResult {
        parse: vec![node("statement", vec![node("avx_rev", vec![node("rev_query", vec![])])])],
        error: String::new(),
    }
}

#[test]
fn library_revision_is_fixed() {
    assert_eq!(get_library_revision(), 0x4407);
}

#[test]
fn library_revision_is_confirmed_by_the_grammar() {
    assert_eq!(assert_grammar_revision_internal(get_library_revision()), 0x4407);
}

#[test]
fn other_short_revisions_are_not_confirmed() {
    assert_eq!(assert_grammar_revision_internal(0x4408), 0);
    assert_eq!(assert_grammar_revision_internal(0x0407), 0);
    assert_eq!(assert_grammar_revision_internal(0), 0);
    assert_eq!(assert_grammar_revision_internal(0xFFFF), 0);
}

#[test]
fn short_revision_is_written_in_four_hex_digits() {
    assert_eq!(hex_statement_of(0x4407), "_AVX_REV_ =? 4407");
    assert_eq!(hex_statement_of(0x00AF), "_AVX_REV_ =? 00AF");
    assert_eq!(hex_statement_of(0), "_AVX_REV_ =? 0000");
    assert_eq!(hex_statement_of(0xFFFF), "_AVX_REV_ =? FFFF");
    assert_eq!(hex_statement_of(0x1B2C), "_AVX_REV_ =? 1B2C");
}

#[test]
fn structured_revision_is_split_into_its_parts() {
    assert_eq!(
        split_revision(20_3_0711),
        Parts { major: 2, minor: 0, year: 3, month: 7, day: 11 }
    );
    assert_eq!(
        split_revision(9_9_9_1231),
        Parts { major: 9, minor: 9, year: 9, month: 12, day: 31 }
    );
    assert_eq!(
        split_revision(u32::MAX),
        Parts { major: 4294, minor: 9, year: 6, month: 72, day: 95 }
    );
    assert_eq!(split_revision(0), Parts { major: 0, minor: 0, year: 0, month: 0, day: 0 });
}

#[test]
fn parts_have_their_ranges() {
    let good = Parts { major: 2, minor: 0, year: 3, month: 7, day: 11 };
    assert!(parts_in_range(&good));
    assert!(parts_in_range(&Parts { major: 1, minor: 0, year: 3, month: 1, day: 1 }));
    assert!(parts_in_range(&Parts { major: 9, minor: 9, year: 9, month: 12, day: 31 }));
    assert!(!parts_in_range(&Parts { major: 0, ..good }));
    assert!(!parts_in_range(&Parts { major: 10, ..good }));
    assert!(!parts_in_range(&Parts { minor: 10, ..good }));
    assert!(!parts_in_range(&Parts { year: 2, ..good }));
    assert!(!parts_in_range(&Parts { year: 10, ..good }));
    assert!(!parts_in_range(&Parts { month: 0, ..good }));
    assert!(!parts_in_range(&Parts { month: 13, ..good }));
    assert!(!parts_in_range(&Parts { day: 0, ..good }));
    assert!(!parts_in_range(&Parts { day: 32, ..good }));
}

#[test]
fn structured_revision_is_written_with_dots() {
    let parts = Parts { major: 2, minor: 0, year: 3, month: 7, day: 11 };
    assert_eq!(dotted_statement_of(&parts), "_AVX_REV_ := 2.0.3.711");
    assert_eq!(dotted_statement_of(&Parts { day: 5, ..parts }), "_AVX_REV_ := 2.0.3.705");
}

#[test]
fn late_months_are_written_as_letters() {
    let parts = Parts { major: 4, minor: 2, year: 5, month: 10, day: 1 };
    assert_eq!(dotted_statement_of(&parts), "_AVX_REV_ := 4.2.5.A01");
    assert_eq!(dotted_statement_of(&Parts { month: 11, ..parts }), "_AVX_REV_ := 4.2.5.B01");
    assert_eq!(dotted_statement_of(&Parts { month: 12, ..parts }), "_AVX_REV_ := 4.2.5.C01");
}

#[test]
fn months_that_are_none_are_written_as_x() {
    let parts = Parts { major: 4, minor: 2, year: 5, month: 13, day: 31 };
    assert_eq!(dotted_statement_of(&parts), "_AVX_REV_ := 4.2.5.X31");
    assert_eq!(dotted_statement_of(&Parts { month: 0, ..parts }), "_AVX_REV_ := 4.2.5.X31");
    assert_eq!(dotted_statement_of(&Parts { month: 99, ..parts }), "_AVX_REV_ := 4.2.5.X31");
}

#[test]
fn revisions_out_of_range_are_not_confirmed() {
    assert_eq!(assert_structured_revision_internal(0), 0);
    assert_eq!(assert_structured_revision_internal(0_0_3_0711), 0);
    assert_eq!(assert_structured_revision_internal(100_3_0711), 0);
    assert_eq!(assert_structured_revision_internal(20_3_0011), 0);
    assert_eq!(assert_structured_revision_internal(20_3_1311), 0);
    assert_eq!(assert_structured_revision_internal(20_3_0700), 0);
    assert_eq!(assert_structured_revision_internal(20_3_0732), 0);
    assert_eq!(assert_structured_revision_internal(u32::MAX), 0);
}

#[test]
fn revisions_in_range_that_the_grammar_does_not_hold_are_not_confirmed() {
    assert_eq!(assert_structured_revision_internal(20_3_0712), 0);
    assert_eq!(assert_structured_revision_internal(21_3_0711), 0);
    assert_eq!(assert_structured_revision_internal(20_3_1011), 0);
}

#[test]
fn exact_shape_confirms() {
    assert!(confirms_revision(&confirmed()));
}

#[test]
fn any_other_shape_does_not_confirm() {
    let mut with_error = confirmed();
    with_error.error = "odd".to_string();
    assert!(!confirms_revision(&with_error));

    assert!(!confirms_revision(&ParseResult { parse: vec![], error: String::new() }));

    let mut two_nodes = confirmed();
    two_nodes.parse.push(node("statement", vec![node("avx_rev", vec![])]));
    assert!(!confirms_revision(&two_nodes));

    let mut other_rule = confirmed();
    other_rule.parse[0].rule = "search".to_string();
    assert!(!confirms_revision(&other_rule));

    let mut no_child = confirmed();
    no_child.parse[0].children.clear();
    assert!(!confirms_revision(&no_child));

    let mut two_children = confirmed();
    two_children.parse[0].children.push(node("avx_rev", vec![]));
    assert!(!confirms_revision(&two_children));

    let mut other_child = confirmed();
    other_child.parse[0].children[0].rule = "command".to_string();
    assert!(!confirms_revision(&other_child));
}

#[test]
fn numbers_are_written_in_decimal() {
    assert_eq!(decimal_of(0), "0");
    assert_eq!(decimal_of(7), "7");
    assert_eq!(decimal_of(10), "10");
    assert_eq!(decimal_of(4294), "4294");
    assert_eq!(decimal_of(u32::MAX), "4294967295");
}

#[test]
fn days_are_written_in_two_digits() {
    assert_eq!(two_digits_of(0), "00");
    assert_eq!(two_digits_of(5), "05");
    assert_eq!(two_digits_of(10), "10");
    assert_eq!(two_digits_of(31), "31");
    assert_eq!(two_digits_of(123), "123");
}

#[test]
fn parts_beyond_one_digit_are_written_whole() {
    let parts = Parts { major: 4294, minor: 12, year: 10, month: 72, day: 95 };
    assert_eq!(dotted_statement_of(&parts), "_AVX_REV_ := 4294.12.10.X95");
}

#[test]
fn revision_in_range_has_its_statement() {
    assert_eq!(structured_statement_of(20_3_0711), Some("_AVX_REV_ := 2.0.3.711".to_string()));
    assert_eq!(structured_statement_of(99_9_1231), Some("_AVX_REV_ := 9.9.9.C31".to_string()));
    assert_eq!(structured_statement_of(10_3_0101), Some("_AVX_REV_ := 1.0.3.101".to_string()));
}

#[test]
fn revision_out_of_range_has_no_statement() {
    assert_eq!(structured_statement_of(20_2_0711), None);
    assert_eq!(structured_statement_of(20_3_1311), None);
    assert_eq!(structured_statement_of(20_3_0700), None);
    assert_eq!(structured_statement_of(0), None);
    assert_eq!(structured_statement_of(u32::MAX), None);
}
