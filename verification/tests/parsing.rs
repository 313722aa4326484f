use keygen::{
    parse_group, parse_list, parse_regex, parse_repetitions, Quantifier, Regex, RegexSymbol,
    SyntaxError, SyntaxErrorKind,
};

fn chars(text: &str) -> Vec<char> {
    text.chars().collect()
}

fn fault(pattern: &str) -> SyntaxError {
    match parse_regex(pattern) {
        Ok(tree) => panic!("{:?} parsed to {:?}", pattern, tree),
        Err(e) => e,
    }
}

fn members(node: &Regex) -> (String, bool) {
    match &node.symbol {
        RegexSymbol::List(list) => (list.members().iter().collect(), list.is_complement()),
        other => panic!("not a class: {:?}", other),
    }
}

fn class(pattern: &str) -> (String, bool) {
    let tree = parse_regex(pattern).unwrap();
    assert_eq!(tree.len(), 1);
    members(&tree[0])
}

#[test]
fn parsing_twice_gives_equal_trees() {
    for pattern in ["", "abc", "[0-9]{3}", "(a[b-d]+)*x?", "\\.\\(", "a{2,}(b(c(d)))"] {
        assert_eq!(parse_regex(pattern), parse_regex(pattern));
    }
    assert_eq!(parse_regex("(abc"), parse_regex("(abc"));
}

#[test]
fn empty_pattern_is_empty_tree() {
    assert_eq!(parse_regex("").unwrap(), Vec::<Regex>::new());
}

#[test]
fn literals_and_dot() {
    let tree = parse_regex("a.b").unwrap();
    assert_eq!(
        tree,
        vec![
            Regex::new(RegexSymbol::Literal('a')),
            Regex::new(RegexSymbol::Any),
            Regex::new(RegexSymbol::Literal('b')),
        ]
    );
}

#[test]
fn default_quantifier_is_once() {
    let tree = parse_regex("a").unwrap();
    assert_eq!(tree[0].quantifier, Quantifier::once());
    assert_eq!(tree[0].quantifier.min(), 1);
    assert_eq!(tree[0].quantifier.max(), Some(1));
}

#[test]
fn escape_suppresses_metacharacters() {
    let tree = parse_regex("\\.\\[\\(\\+\\\\").unwrap();
    let expected: Vec<Regex> =
        ".[(+\\".chars().map(|c| Regex::new(RegexSymbol::Literal(c))).collect();
    assert_eq!(tree, expected);
}

#[test]
fn closing_bracket_and_brace_alone_are_literals() {
    let tree = parse_regex("]}").unwrap();
    assert_eq!(
        tree,
        vec![Regex::new(RegexSymbol::Literal(']')), Regex::new(RegexSymbol::Literal('}'))]
    );
}

#[test]
fn quantifier_forms() {
    let tree = parse_regex("a+b*c?d{3}e{2,}f{1,4}").unwrap();
    let bounds: Vec<(u32, Option<u32>)> =
        tree.iter().map(|n| (n.quantifier.min(), n.quantifier.max())).collect();
    assert_eq!(
        bounds,
        vec![(1, None), (0, None), (0, Some(1)), (3, Some(3)), (2, None), (1, Some(4))]
    );
}

#[test]
fn quantifier_constructors_agree_with_the_parser() {
    let tree = parse_regex("a+b*c?d{3}e{2,}f{1,4}").unwrap();
    assert_eq!(tree[0].quantifier, Quantifier::at_least(1));
    assert_eq!(tree[1].quantifier, Quantifier::at_least(0));
    assert_eq!(tree[2].quantifier, Quantifier::optional());
    assert_eq!(tree[3].quantifier, Quantifier::exactly(3));
    assert_eq!(tree[4].quantifier, Quantifier::at_least(2));
    assert_eq!(Some(tree[5].quantifier), Quantifier::new(1, Some(4)));
}

#[test]
fn quantifier_new_rejects_inverted_bounds() {
    assert_eq!(Quantifier::new(5, Some(2)), None);
    assert!(Quantifier::new(2, Some(2)).is_some());
    assert!(Quantifier::new(7, None).is_some());
}

#[test]
fn quantifier_windows() {
    assert_eq!(Quantifier::exactly(3).window(), (3, 3));
    assert_eq!(Quantifier::at_least(1).window(), (1, 5));
    assert_eq!(Quantifier::at_least(0).window(), (0, 4));
    assert_eq!(Quantifier::optional().window(), (0, 1));
    assert_eq!(Quantifier::new(2, Some(9)).unwrap().window(), (2, 9));
    assert_eq!(
        Quantifier::at_least(u32::MAX).window(),
        (u32::MAX as u64, u32::MAX as u64 + 4)
    );
}

#[test]
fn repetition_bounds_at_the_edge_of_u32() {
    let tree = parse_regex("a{4294967295}").unwrap();
    assert_eq!(tree[0].quantifier.min(), u32::MAX);
    assert_eq!(fault("a{4294967296}").kind, SyntaxErrorKind::MalformedRepetition);
    assert_eq!(fault("a{1,4294967296}").kind, SyntaxErrorKind::MalformedRepetition);
    let tree = parse_regex("a{007}").unwrap();
    assert_eq!(tree[0].quantifier, Quantifier::exactly(7));
}

#[test]
fn groups_nest() {
    let tree = parse_regex("(a(b)+)?").unwrap();
    assert_eq!(tree.len(), 1);
    assert_eq!(tree[0].quantifier, Quantifier::optional());
    match &tree[0].symbol {
        RegexSymbol::Group(inner) => {
            assert_eq!(inner.len(), 2);
            assert_eq!(inner[0], Regex::new(RegexSymbol::Literal('a')));
            assert_eq!(inner[1].quantifier, Quantifier::at_least(1));
            match &inner[1].symbol {
                RegexSymbol::Group(deep) => {
                    assert_eq!(deep, &vec![Regex::new(RegexSymbol::Literal('b'))])
                }
                other => panic!("not a group: {:?}", other),
            }
        }
        other => panic!("not a group: {:?}", other),
    }
}

#[test]
fn empty_group() {
    let tree = parse_regex("()").unwrap();
    assert_eq!(tree, vec![Regex::new(RegexSymbol::Group(Vec::new()))]);
}

#[test]
fn class_with_range() {
    assert_eq!(class("[0-9]"), ("0123456789".to_string(), false));
    assert_eq!(class("[a-cx]"), ("abcx".to_string(), false));
}

#[test]
fn class_negated() {
    assert_eq!(class("[^a]"), ("a".to_string(), true));
    assert_eq!(class("[^a-c]"), ("abc".to_string(), true));
    assert_eq!(class("[^]"), ("".to_string(), true));
}

#[test]
fn class_caret_later_is_a_member() {
    assert_eq!(class("[a^]"), ("a^".to_string(), false));
}

#[test]
fn class_drops_duplicates_keeping_first_place() {
    assert_eq!(class("[abca]"), ("abc".to_string(), false));
    assert_eq!(class("[ca-d]"), ("cabd".to_string(), false));
    assert_eq!(class("[a-cb-e]"), ("abcde".to_string(), false));
    assert_eq!(class("[bab-d]"), ("bacd".to_string(), false));
}

#[test]
fn class_dash_at_the_ends_is_literal() {
    assert_eq!(class("[-a]"), ("-a".to_string(), false));
    assert_eq!(class("[a-]"), ("a-".to_string(), false));
    assert_eq!(class("[^-a]"), ("-a".to_string(), true));
    assert_eq!(class("[-]"), ("-".to_string(), false));
}

#[test]
fn class_range_continues_from_its_end() {
    assert_eq!(class("[a-c-e]"), ("abcde".to_string(), false));
}

#[test]
fn class_leading_bracket_is_a_member() {
    assert_eq!(class("[]a]"), ("]a".to_string(), false));
    assert_eq!(fault("[]"), SyntaxError { kind: SyntaxErrorKind::UnterminatedClass, position: 1 });
}

#[test]
fn class_escapes() {
    assert_eq!(class("[a\\]b]"), ("a]b".to_string(), false));
    assert_eq!(class("[\\-a]"), ("-a".to_string(), false));
    assert_eq!(class("[\\\\]"), ("\\".to_string(), false));
    assert_eq!(class("[a-\\c]"), ("abc".to_string(), false));
}

#[test]
fn class_single_character_range() {
    assert_eq!(class("[a-a]"), ("a".to_string(), false));
}

#[test]
fn class_range_skips_surrogates() {
    let pattern = format!("[{}-{}]", '\u{D7FE}', '\u{E001}');
    assert_eq!(class(&pattern), ("\u{D7FE}\u{D7FF}\u{E000}\u{E001}".to_string(), false));
}

#[test]
fn class_metacharacters_are_members() {
    assert_eq!(class("[.(+*?{]"), (".(+*?{".to_string(), false));
}

#[test]
fn unterminated_group_is_a_syntax_error() {
    assert_eq!(fault("(abc"), SyntaxError { kind: SyntaxErrorKind::UnterminatedGroup, position: 1 });
    assert_eq!(
        fault("a(b(c)"),
        SyntaxError { kind: SyntaxErrorKind::UnterminatedGroup, position: 2 }
    );
}

#[test]
fn unmatched_parenthesis() {
    assert_eq!(
        fault("a)"),
        SyntaxError { kind: SyntaxErrorKind::UnmatchedParenthesis, position: 1 }
    );
    assert_eq!(
        fault("(a))"),
        SyntaxError { kind: SyntaxErrorKind::UnmatchedParenthesis, position: 3 }
    );
}

#[test]
fn unterminated_class() {
    assert_eq!(fault("[abc"), SyntaxError { kind: SyntaxErrorKind::UnterminatedClass, position: 1 });
    assert_eq!(fault("x[a-"), SyntaxError { kind: SyntaxErrorKind::UnterminatedClass, position: 2 });
    assert_eq!(fault("[a\\"), SyntaxError { kind: SyntaxErrorKind::UnterminatedClass, position: 1 });
    assert_eq!(fault("["), SyntaxError { kind: SyntaxErrorKind::UnterminatedClass, position: 1 });
}

#[test]
fn dangling_escape() {
    assert_eq!(fault("a\\"), SyntaxError { kind: SyntaxErrorKind::DanglingEscape, position: 1 });
}

#[test]
fn quantifier_without_a_node() {
    for pattern in ["+a", "*", "?b", "{2}"] {
        assert_eq!(
            fault(pattern),
            SyntaxError { kind: SyntaxErrorKind::NothingToRepeat, position: 0 }
        );
    }
    assert_eq!(
        fault("a(+b)"),
        SyntaxError { kind: SyntaxErrorKind::NothingToRepeat, position: 2 }
    );
}

#[test]
fn second_quantifier_on_a_node() {
    assert_eq!(
        fault("a++"),
        SyntaxError { kind: SyntaxErrorKind::DuplicateQuantifier, position: 2 }
    );
    assert_eq!(
        fault("a{2}{3}"),
        SyntaxError { kind: SyntaxErrorKind::DuplicateQuantifier, position: 4 }
    );
    assert_eq!(
        fault("(a)*?"),
        SyntaxError { kind: SyntaxErrorKind::DuplicateQuantifier, position: 4 }
    );
}

#[test]
fn malformed_repetitions() {
    for pattern in ["a{x}", "a{}", "a{,3}", "a{3", "a{3,", "a{3,4", "a{3,2}", "a{ 3}", "a{+3}", "a{3;}"] {
        assert_eq!(
            fault(pattern),
            SyntaxError { kind: SyntaxErrorKind::MalformedRepetition, position: 2 },
            "{}",
            pattern
        );
    }
}

#[test]
fn inverted_range_is_rejected() {
    assert_eq!(fault("[z-a]"), SyntaxError { kind: SyntaxErrorKind::InvalidRange, position: 2 });
    assert_eq!(fault("x[ab-a]"), SyntaxError { kind: SyntaxErrorKind::InvalidRange, position: 4 });
}

#[test]
fn nesting_is_bounded() {
    let deep = |n: usize| format!("{}{}", "(".repeat(n), ")".repeat(n));
    assert!(parse_regex(&deep(256)).is_ok());
    assert_eq!(
        fault(&deep(257)),
        SyntaxError { kind: SyntaxErrorKind::NestingTooDeep, position: 256 }
    );
}

#[test]
fn parse_list_reads_one_class() {
    let text = chars("[a-c]xyz");
    let mut pos = 1;
    let node = parse_list(&text, &mut pos).unwrap();
    assert_eq!(pos, 5);
    assert_eq!(members(&node), ("abc".to_string(), false));
    assert_eq!(node.quantifier, Quantifier::once());
}

#[test]
fn parse_list_keeps_position_on_a_fault() {
    let text = chars("[c-a]");
    let mut pos = 1;
    assert_eq!(
        parse_list(&text, &mut pos),
        Err(SyntaxError { kind: SyntaxErrorKind::InvalidRange, position: 2 })
    );
    assert_eq!(pos, 1);
    let mut beyond = 9;
    assert_eq!(
        parse_list(&text, &mut beyond),
        Err(SyntaxError { kind: SyntaxErrorKind::UnterminatedClass, position: 9 })
    );
}

#[test]
fn parse_repetitions_reads_one_brace_expression() {
    let text = chars("a{2,5}b");
    let mut pos = 2;
    assert_eq!(parse_repetitions(&text, &mut pos), Ok(Quantifier::new(2, Some(5)).unwrap()));
    assert_eq!(pos, 6);
    let text = chars("{12,}");
    let mut pos = 1;
    assert_eq!(parse_repetitions(&text, &mut pos), Ok(Quantifier::at_least(12)));
    assert_eq!(pos, 5);
}

#[test]
fn parse_repetitions_keeps_position_on_a_fault() {
    let text = chars("a{2,x}");
    let mut pos = 2;
    assert_eq!(
        parse_repetitions(&text, &mut pos),
        Err(SyntaxError { kind: SyntaxErrorKind::MalformedRepetition, position: 2 })
    );
    assert_eq!(pos, 2);
    let mut beyond = 40;
    assert_eq!(
        parse_repetitions(&text, &mut beyond),
        Err(SyntaxError { kind: SyntaxErrorKind::MalformedRepetition, position: 40 })
    );
}

#[test]
fn parse_group_reads_to_the_closing_parenthesis() {
    let text = chars("(ab)c");
    let mut pos = 1;
    let node = parse_group(&text, &mut pos).unwrap();
    assert_eq!(pos, 4);
    assert_eq!(
        node,
        Regex::new(RegexSymbol::Group(vec![
            Regex::new(RegexSymbol::Literal('a')),
            Regex::new(RegexSymbol::Literal('b')),
        ]))
    );
}

#[test]
fn parse_group_keeps_position_on_a_fault() {
    let text = chars("(ab");
    let mut pos = 1;
    assert_eq!(
        parse_group(&text, &mut pos),
        Err(SyntaxError { kind: SyntaxErrorKind::UnterminatedGroup, position: 1 })
    );
    assert_eq!(pos, 1);
    let mut beyond = 7;
    assert_eq!(
        parse_group(&text, &mut beyond),
        Err(SyntaxError { kind: SyntaxErrorKind::UnterminatedGroup, position: 7 })
    );
}

#[test]
fn positions_count_characters_not_bytes() {
    assert_eq!(
        fault("\u{00E9}\u{4E2D})"),
        SyntaxError { kind: SyntaxErrorKind::UnmatchedParenthesis, position: 2 }
    );
}

#[test]
fn messages_describe_the_fault() {
    assert_eq!(fault("[z-a]").message(), "invalid range at character 2");
    assert_eq!(fault("(abc").message(), "group is never closed at character 1");
    assert_eq!(fault("+").message(), "quantifier with nothing to repeat at character 0");
    let long = format!("{}{}", "a".repeat(1234567), ")");
    assert_eq!(fault(&long).message(), "unmatched ')' at character 1234567");
    assert_eq!(SyntaxErrorKind::InvalidRange.describe(), "invalid range");
    assert_eq!(SyntaxErrorKind::UnterminatedGroup.describe(), "group is never closed");
    assert_eq!(SyntaxErrorKind::UnmatchedParenthesis.describe(), "unmatched ')'");
    assert_eq!(SyntaxErrorKind::UnterminatedClass.describe(), "bracket class is never closed");
    assert_eq!(SyntaxErrorKind::DanglingEscape.describe(), "backslash at the end of the pattern");
    assert_eq!(SyntaxErrorKind::NothingToRepeat.describe(), "quantifier with nothing to repeat");
    assert_eq!(SyntaxErrorKind::DuplicateQuantifier.describe(), "second quantifier on one node");
    assert_eq!(SyntaxErrorKind::MalformedRepetition.describe(), "malformed repetition bounds");
    assert_eq!(SyntaxErrorKind::NestingTooDeep.describe(), "groups nested too deeply");
}
