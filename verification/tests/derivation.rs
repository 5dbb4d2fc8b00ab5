use quelle::derivation::{build_forest, Match, Token};
use quelle::label::canonical_rule_of;
use quelle::tree::{recurse, slice_text, Parsed};

fn start(rule: &str, pos: usize) -> Token {
    Token::Start { rule: rule.to_string(), pos }
}

fn end(rule: &str, pos: usize) -> Token {
    Token::End { rule: rule.to_string(), pos }
}

fn write_down(forest: &Vec<Match>, tokens: &mut Vec<Token>) {
    for m in forest {
        tokens.push(start(&m.rule, m.start));
        write_down(&m.inner, tokens);
        tokens.push(end(&m.rule, m.end));
    }
}

fn leaf(rule: &str, start: usize, end: usize) -> Match {
    Match { rule: rule.to_string(), start, end, inner: vec![] }
}

#[test]
fn no_tokens_are_the_empty_derivation() {
    assert_eq!(build_forest(&vec![], "abc"), Some(vec![]));
    assert_eq!(build_forest(&vec![], ""), Some(vec![]));
}

#[test]
fn tokens_are_nested_as_they_open_and_close() {
    let tokens = vec![
        start("a", 0),
        start("b", 0),
        end("b", 2),
        start("c", 2),
        start("d", 3),
        end("d", 3),
        end("c", 4),
        end("a", 4),
        start("e", 4),
        end("e", 5),
    ];
    let forest = build_forest(&tokens, "01234").unwrap();
    assert_eq!(
        forest,
        vec![
            Match {
                rule: "a".to_string(),
                start: 0,
                end: 4,
                inner: vec![
                    leaf("b", 0, 2),
                    Match { rule: "c".to_string(), start: 2, end: 4, inner: vec![leaf("d", 3, 3)] },
                ],
            },
            leaf("e", 4, 5),
        ]
    );
}

#[test]
fn an_empty_match_at_the_end_belongs_where_it_was_closed() {
    let inside = vec![start("a", 0), start("b", 2), end("b", 2), end("a", 2)];
    assert_eq!(
        build_forest(&inside, "xy"),
        Some(vec![Match { rule: "a".to_string(), start: 0, end: 2, inner: vec![leaf("b", 2, 2)] }])
    );
    let after = vec![start("a", 0), end("a", 2), start("b", 2), end("b", 2)];
    assert_eq!(build_forest(&after, "xy"), Some(vec![leaf("a", 0, 2), leaf("b", 2, 2)]));
}

#[test]
fn a_match_left_open_is_no_derivation() {
    assert_eq!(build_forest(&vec![start("a", 0)], "x"), None);
    assert_eq!(build_forest(&vec![start("a", 0), start("b", 0), end("b", 1)], "x"), None);
}

#[test]
fn an_end_without_a_start_is_no_derivation() {
    assert_eq!(build_forest(&vec![end("a", 0)], "x"), None);
    assert_eq!(build_forest(&vec![start("a", 0), end("a", 1), end("a", 1)], "x"), None);
}

#[test]
fn an_end_of_another_rule_is_no_derivation() {
    assert_eq!(build_forest(&vec![start("a", 0), end("b", 1)], "x"), None);
    let crossed = vec![start("a", 0), start("b", 0), end("a", 1), end("b", 1)];
    assert_eq!(build_forest(&crossed, "x"), None);
}

#[test]
fn a_position_beyond_the_input_is_no_derivation() {
    assert_eq!(build_forest(&vec![start("a", 0), end("a", 2)], "x"), None);
    assert_eq!(build_forest(&vec![start("a", 2), end("a", 2)], "x"), None);
    assert_eq!(build_forest(&vec![start("a", 1), end("a", 1)], ""), None);
}

#[test]
fn a_position_inside_a_character_is_no_derivation() {
    assert_eq!(build_forest(&vec![start("a", 0), end("a", 1)], "é"), None);
    assert_eq!(build_forest(&vec![start("a", 1), end("a", 2)], "é"), None);
    assert_eq!(build_forest(&vec![start("a", 0), end("a", 2)], "é"), Some(vec![leaf("a", 0, 2)]));
}

#[test]
fn a_position_before_its_predecessor_is_no_derivation() {
    assert_eq!(build_forest(&vec![start("a", 1), end("a", 0)], "xy"), None);
    let back = vec![start("a", 0), end("a", 2), start("b", 1), end("b", 2)];
    assert_eq!(build_forest(&back, "xy"), None);
}

#[test]
fn text_is_cut_at_byte_positions() {
    assert_eq!(slice_text("hello world", 6, 11), "world");
    assert_eq!(slice_text("hello", 0, 0), "");
    assert_eq!(slice_text("hello", 5, 5), "");
    assert_eq!(slice_text("hello", 0, 5), "hello");
    assert_eq!(slice_text("aébc", 1, 3), "é");
    assert_eq!(slice_text("aébc", 3, 5), "bc");
}

#[test]
fn annotation_is_stripped_at_the_first_parenthesis() {
    assert_eq!(canonical_rule_of("statement(0, 5, [avx_rev(0, 5)])"), "statement");
    assert_eq!(canonical_rule_of("avx_rev(0, 5)"), "avx_rev");
    assert_eq!(canonical_rule_of("a(b(c"), "a");
    assert_eq!(canonical_rule_of("é(x)"), "é");
}

#[test]
fn label_without_annotation_is_kept() {
    assert_eq!(canonical_rule_of("statement"), "statement");
    assert_eq!(canonical_rule_of(""), "");
}

#[test]
fn leading_parenthesis_is_no_annotation() {
    assert_eq!(canonical_rule_of("(0, 5)"), "(0, 5)");
    assert_eq!(canonical_rule_of("("), "(");
}

#[test]
fn nodes_are_appended_after_those_already_there() {
    let mut items = vec![Parsed { rule: "old".to_string(), text: "t".to_string(), children: vec![] }];
    recurse(&vec![leaf("x(1)", 0, 1), leaf("y", 1, 2)], "ab", &mut items);
    assert_eq!(items.len(), 3);
    assert_eq!(items[0].rule, "old");
    assert_eq!(items[1], Parsed { rule: "x".to_string(), text: "a".to_string(), children: vec![] });
    assert_eq!(items[2], Parsed { rule: "y".to_string(), text: "b".to_string(), children: vec![] });
}

#[test]
fn deep_derivations_are_rewritten() {
    let mut tokens = Vec::new();
    for _ in 0..200 {
        tokens.push(start("r", 0));
    }
    for _ in 0..200 {
        tokens.push(end("r", 1));
    }
    let forest = build_forest(&tokens, "x").unwrap();
    let mut items: Vec<Parsed> = Vec::new();
    recurse(&forest, "x", &mut items);
    let mut depth = 0;
    let mut node = &items[0];
    loop {
        depth += 1;
        assert_eq!(node.text, "x");
        if node.children.is_empty() {
            break;
        }
        node = &node.children[0];
    }
    assert_eq!(depth, 200);
}

#[test]
fn a_derivation_written_down_again_is_its_token_stream() {
    let tokens = vec![
        start("a", 0),
        start("b", 0),
        end("b", 2),
        start("c", 2),
        start("d", 3),
        end("d", 3),
        end("c", 4),
        end("a", 4),
        start("e", 4),
        end("e", 5),
    ];
    let forest = build_forest(&tokens, "01234").unwrap();
    let mut written = Vec::new();
    write_down(&forest, &mut written);
    assert_eq!(written, tokens);
}

#[test]
fn nested_matches_are_the_derivation_of_their_tokens() {
    let forest = vec![
        Match {
            rule: "a".to_string(),
            start: 0,
            end: 3,
            inner: vec![leaf("b", 0, 0), leaf("c", 0, 3), leaf("d", 3, 3)],
        },
        leaf("e", 3, 3),
        leaf("f", 3, 5),
    ];
    let mut tokens = Vec::new();
    write_down(&forest, &mut tokens);
    assert_eq!(build_forest(&tokens, "aébc"), Some(forest));
}
