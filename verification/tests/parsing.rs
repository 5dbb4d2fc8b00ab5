use quelle::derivation::{build_forest, Match, Token};
use quelle::label::canonical_rule_of;
use quelle::revision::{assert_grammar_revision_internal, assert_structured_revision_internal};
use quelle::tree::{recurse, Parsed};
use quelle::{get_parse, raw_envelope, structured_envelope};

fn assert_children_inside(node: &Parsed) {
    let mut from = 0;
    for child in &node.children {
        let at = node.text[from..].find(child.text.as_str());
        assert!(at.is_some(), "{:?} is not inside {:?}", child.text, node.text);
        from = from + at.unwrap() + child.text.len();
        assert_children_inside(child);
    }
}

#[test]
fn empty_input_is_invalid_input() {
    let root = structured_envelope("");
    assert_eq!(root.input, "");
    assert_eq!(root.error, "Invalid Input Error");
    assert!(root.result.is_empty());
    let raw = raw_envelope("");
    assert_eq!(raw.input, "");
    assert_eq!(raw.error, "Invalid Input Error");
    assert!(raw.result.is_empty());
}

#[test]
fn every_statement_kind_is_one_statement_node() {
    let statements = [
        "_AVX_REV_ =? 4407",
        "@exit",
        "@help",
        "@help search",
        "@absorb foo-bar",
        "@view #1",
        "@view from 1/1/2024 to 4/4/2924",
        "#foo-bar",
        "\"/BoV/&in|out&/prep/ /det/ begin* God [create]\"",
        "/BoV/&in|out&/prep/ /det/ begin* God [create]",
    ];
    for statement in statements {
        let root = structured_envelope(statement);
        assert_eq!(root.input, statement);
        assert_eq!(root.error, "", "for {:?}", statement);
        assert_eq!(root.result.len(), 1, "for {:?}", statement);
        assert_eq!(root.result[0].rule, "statement");
        assert_eq!(root.result[0].text, statement);
        assert_eq!(root.result[0].children.len(), 1);
    }
}

#[test]
fn statement_kinds_are_told_apart() {
    assert_eq!(structured_envelope("@exit").result[0].children[0].rule, "command");
    assert_eq!(structured_envelope("#foo-bar").result[0].children[0].rule, "invocation");
    assert_eq!(structured_envelope("God").result[0].children[0].rule, "search");
    assert_eq!(structured_envelope("_AVX_REV_ =? 4407").result[0].children[0].rule, "avx_rev");
}

#[test]
fn malformed_input_has_error_and_no_result() {
    for statement in ["\"God created", "@view", "@absorb", "#", "[create", "/BoV", "@nothing"] {
        let root = structured_envelope(statement);
        assert!(root.result.is_empty(), "for {:?}", statement);
        assert!(!root.error.is_empty(), "for {:?}", statement);
        let raw = raw_envelope(statement);
        assert!(raw.result.is_empty(), "for {:?}", statement);
        assert!(!raw.error.is_empty(), "for {:?}", statement);
    }
}

#[test]
fn canonicalizing_twice_gives_the_same_tree() {
    let statement = "/BoV/&in|out&/prep/ /det/ begin* God [create]";
    let first = get_parse(statement);
    let second = get_parse(statement);
    assert_eq!(first.error, "");
    assert_eq!(first, second);

    let tokens = vec![
        Token::Start { rule: "a".to_string(), pos: 0 },
        Token::Start { rule: "b".to_string(), pos: 1 },
        Token::End { rule: "b".to_string(), pos: 2 },
        Token::End { rule: "a".to_string(), pos: 3 },
    ];
    let forest = build_forest(&tokens, "xyz").unwrap();
    let mut once: Vec<Parsed> = Vec::new();
    recurse(&forest, "xyz", &mut once);
    let mut twice: Vec<Parsed> = Vec::new();
    recurse(&forest, "xyz", &mut twice);
    assert_eq!(once, twice);
}

#[test]
fn canonical_identifiers_are_fixed_points() {
    for label in ["statement(0, 5, [avx_rev(0, 5)])", "statement", "(odd", "", "a(b(c"] {
        let once = canonical_rule_of(label);
        assert_eq!(canonical_rule_of(&once), once);
    }
}

#[test]
fn children_lie_inside_their_parents_in_order() {
    let statements = [
        "\"/BoV/&in|out&/prep/ /det/ begin* God [create]\"",
        "/BoV/&in|out&/prep/ /det/ begin* God [create]",
        "@view from 1/1/2024 to 4/4/2924",
        "God God God",
    ];
    for statement in statements {
        let parsed = get_parse(statement);
        assert_eq!(parsed.error, "");
        let whole = Parsed {
            rule: String::new(),
            text: statement.to_string(),
            children: parsed.parse,
        };
        assert_children_inside(&whole);
    }
}

#[test]
fn repeated_words_keep_their_own_places() {
    let parsed = get_parse("God God");
    let unordered = &parsed.parse[0].children[0].children[0];
    assert_eq!(unordered.rule, "unordered");
    assert_eq!(unordered.children.len(), 2);
    assert_eq!(unordered.children[0].text, "God");
    assert_eq!(unordered.children[1].text, "God");
}

#[test]
fn structured_revision_round_trip() {
    assert_eq!(assert_structured_revision_internal(20_3_0711), 20_3_0711);
}

#[test]
fn revision_below_minimum_year_is_rejected() {
    assert_eq!(assert_structured_revision_internal(20_2_0711), 0);
    assert_eq!(assert_structured_revision_internal(20_0_0711), 0);
}

#[test]
fn short_revision_round_trip() {
    assert_eq!(assert_grammar_revision_internal(0x4407), 0x4407);
}

#[test]
fn nested_matches_become_nested_nodes() {
    let forest = vec![Match {
        rule: "outer(0, 6)".to_string(),
        start: 0,
        end: 6,
        inner: vec![Match { rule: "inner".to_string(), start: 1, end: 4, inner: vec![] }],
    }];
    let mut items: Vec<Parsed> = Vec::new();
    recurse(&forest, "aébcd", &mut items);
    assert_eq!(
        items,
        vec![Parsed {
            rule: "outer".to_string(),
            text: "aébcd".to_string(),
            children: vec![Parsed {
                rule: "inner".to_string(),
                text: "éb".to_string(),
                children: vec![],
            }],
        }]
    );
}
