use grammar_expressions::{
    find_all, find_all_expression, find_first, is_match, match_full, match_full_expression, parse,
    replace_all, replace_all_expression, rewrite, Expression, GrammarError, RewriteRule,
};

fn error_of(pattern: &str) -> GrammarError {
    match parse(pattern) {
        Ok(_) => panic!("expected an error for {pattern:?}"),
        Err(e) => e,
    }
}

#[test]
fn ordered_choice_prefers_the_first_alternative() {
    let found = find_first("a|ab", "ab").unwrap().unwrap();
    assert_eq!(found.text, "a");
    assert_eq!((found.start, found.end), (0, 1));
    assert!(!is_match("a|ab", "ab").unwrap());
    assert!(is_match("ab|a", "ab").unwrap());
}

#[test]
fn repetition_is_greedy_and_backtracks() {
    let found = find_first("a*", "aaab").unwrap().unwrap();
    assert_eq!(found.text, "aaa");
    assert!(is_match("a*a", "aaa").unwrap());
    assert!(is_match("(ab)+", "ababab").unwrap());
    assert!(!is_match("(ab)+", "").unwrap());
    assert!(is_match("x?y", "y").unwrap());
}

#[test]
fn classes_wildcards_and_escapes() {
    assert!(is_match("[^0-9]+", "abc").unwrap());
    assert!(!is_match("[^0-9]+", "a1c").unwrap());
    assert!(is_match("[a-]", "-").unwrap());
    assert!(is_match("[\\]]", "]").unwrap());
    assert!(is_match("\\(\\)\\+", "()+").unwrap());
    assert!(is_match("a\\tb\\n", "a\tb\n").unwrap());
    assert!(is_match("...", "βγδ").unwrap());
    assert!(!is_match("...", "βγ").unwrap());
}

#[test]
fn offsets_are_bytes_at_character_boundaries() {
    let found = find_first("γ+", "aβγγ!").unwrap().unwrap();
    assert_eq!(found.text, "γγ");
    assert_eq!(found.start, 3);
    assert_eq!(found.end, 7);
    let whole = match_full("{x:.*}", "β!").unwrap().unwrap();
    assert_eq!((whole.start, whole.end), (0, 3));
    assert_eq!(whole.text, "β!");
    assert_eq!(whole.captures, vec![("x".to_string(), "β!".to_string())]);
}

#[test]
fn captures_are_ordered_by_name_and_the_last_one_wins() {
    let found = match_full("{b:x}{a:y}", "xy").unwrap().unwrap();
    assert_eq!(
        found.captures,
        vec![("a".to_string(), "y".to_string()), ("b".to_string(), "x".to_string())]
    );
    let repeated = match_full("({n:.})+", "abc").unwrap().unwrap();
    assert_eq!(repeated.captures, vec![("n".to_string(), "c".to_string())]);
}

#[test]
fn whole_match_reports_the_input() {
    assert!(match_full("ab", "abc").unwrap().is_none());
    let expression = parse("a(b|c)*").unwrap();
    let found = match_full_expression(&expression, "abcb").unwrap();
    assert_eq!((found.start, found.end), (0, 4));
    assert_eq!(found.text, "abcb");
    assert!(found.captures.is_empty());
}

#[test]
fn replacement_templates() {
    assert_eq!(replace_all("{d:[0-9]}", "<$0|${d}|$$|$x|$>", "a1").unwrap(), "a<1|1|$||$>");
    assert_eq!(replace_all("{d:[0-9]}", "${d", "1").unwrap(), "${d");
    assert_eq!(replace_all("b", "", "abcb").unwrap(), "ac");
    assert_eq!(replace_all("x*", "-", "ab").unwrap(), "-a-b-");
}

#[test]
fn replacing_without_matches_or_by_the_whole_match_keeps_the_input() {
    assert_eq!(replace_all("z", "y", "abc").unwrap(), "abc");
    assert_eq!(replace_all("[a-c]+|x?", "$0", "aab-xc").unwrap(), "aab-xc");
    let expression = parse("b+").unwrap();
    assert_eq!(replace_all_expression(&expression, "[$0]", "abbcb"), "a[bb]c[b]");
}

#[test]
fn searches_find_ordered_non_overlapping_matches() {
    let found = find_all("[0-9]+", "a12b3c456").unwrap();
    let texts: Vec<_> = found.iter().map(|m| m.text.clone()).collect();
    assert_eq!(texts, vec!["12", "3", "456"]);
    for pair in found.windows(2) {
        assert!(pair[0].end <= pair[1].start);
    }
    let first = find_first("[0-9]+", "a12b3c456").unwrap().unwrap();
    assert_eq!(first, found[0]);
    let expression = parse("x").unwrap();
    assert!(find_all_expression(&expression, "abc").is_empty());
}

#[test]
fn pattern_errors_name_what_and_where() {
    let cases: Vec<(&str, &str, usize)> = vec![
        ("a)", "unexpected token", 1),
        ("*a", "unexpected token `*`", 0),
        ("a|+", "unexpected token `+`", 2),
        ("{:a}", "expected capture name", 1),
        ("{ab}", "expected `:` but found `}`", 3),
        ("(a", "expected `)`", 2),
        ("{a:b", "expected `}`", 4),
        ("[ab", "unterminated character class", 3),
        ("[]", "empty character class", 2),
        ("[a-", "expected character class item", 3),
        ("\\", "unterminated escape sequence", 1),
    ];
    for (pattern, message, position) in cases {
        let error = error_of(pattern);
        assert_eq!(error.message, message, "pattern {pattern:?}");
        assert_eq!(error.position, position, "pattern {pattern:?}");
    }
    assert!(is_match("(", "x").is_err());
    assert!(replace_all("[", "", "x").is_err());
    assert!(find_all("{", "x").is_err());
}

#[test]
fn parsing_builds_the_expected_tree() {
    match parse("ab|c").unwrap() {
        Expression::Choice(items) => {
            assert_eq!(items.len(), 2);
            assert_eq!(items[1], Expression::Literal('c'));
            match &items[0] {
                Expression::Sequence(seq) => {
                    assert_eq!(seq, &vec![Expression::Literal('a'), Expression::Literal('b')])
                }
                other => panic!("unexpected {other:?}"),
            }
        }
        other => panic!("unexpected {other:?}"),
    }
    assert_eq!(parse("").unwrap(), Expression::Empty);
    match parse("x?").unwrap() {
        Expression::Repeat { min, max, .. } => assert_eq!((min, max), (0, Some(1))),
        other => panic!("unexpected {other:?}"),
    }
    let e = parse("{n:a+}").unwrap();
    assert_eq!(e.clone(), e);
}

#[test]
fn rewrite_stops_when_no_rule_applies_or_without_budget() {
    let rules = vec![RewriteRule::new("ab", "b")];
    let result = rewrite(&rules, "aaab", 10).unwrap();
    assert_eq!(result.output, "b");
    assert_eq!(result.steps, 3);
    assert!(!result.terminated);
    assert!(!result.max_steps_reached);

    let none = rewrite(&rules, "aaab", 0).unwrap();
    assert_eq!(none.output, "aaab");
    assert_eq!(none.steps, 0);
    assert!(!none.max_steps_reached);

    let terminal = RewriteRule::terminal("a", "z");
    assert!(terminal.terminal);
    assert!(!rules[0].terminal);
    let stop = rewrite(&[terminal], "aa", 5).unwrap();
    assert_eq!(stop.output, "za");
    assert_eq!(stop.steps, 1);
    assert!(stop.terminated);
}

#[test]
fn rewrite_reports_the_first_pattern_error() {
    let rules = vec![RewriteRule::new("a", "b"), RewriteRule::new("(", "c"), RewriteRule::new("*", "d")];
    let error = rewrite(&rules, "a", 3).unwrap_err();
    assert_eq!(error.message, "expected `)`");
    assert_eq!(error.position, 1);
}

#[test]
fn search_finds_the_leftmost_match() {
    let found = find_first("b+|c", "acbb").unwrap().unwrap();
    assert_eq!(found.text, "c");
    assert_eq!((found.start, found.end), (1, 2));
    assert!(find_first("z", "abc").unwrap().is_none());
}

#[test]
fn reported_offsets_are_character_boundaries() {
    let input = "é-ü-ö";
    for found in find_all(".", input).unwrap() {
        assert!(input.is_char_boundary(found.start));
        assert!(input.is_char_boundary(found.end));
        assert!(found.start <= found.end && found.end <= input.len());
        assert_eq!(&input[found.start..found.end], found.text);
    }
    let empty = find_all("x*", input).unwrap();
    assert_eq!(empty.len(), 6);
    assert_eq!(empty.last().unwrap().start, input.len());
}

#[test]
fn errors_describe_themselves() {
    assert_eq!(error_of("a)").describe(), "unexpected token at pattern position 1");
    assert_eq!(error_of("abcdefghijk)").describe(), "unexpected token at pattern position 11");
    assert_eq!(error_of("(ab").describe(), "expected `)` at pattern position 3");
}

#[test]
fn rewriting_in_two_budgets_is_rewriting_in_one() {
    let rules = vec![RewriteRule::new("a", "aa")];
    let first = rewrite(&rules, "a", 2).unwrap();
    assert_eq!(first.steps, 2);
    assert!(!first.terminated);
    let second = rewrite(&rules, &first.output, 3).unwrap();
    let whole = rewrite(&rules, "a", 5).unwrap();
    assert_eq!(whole.output, second.output);
    assert_eq!(whole.steps, 2 + second.steps);
    assert_eq!(whole.terminated, second.terminated);
    assert_eq!(whole.max_steps_reached, second.max_steps_reached);

    let one = rewrite(&[RewriteRule::new("x", "y"), RewriteRule::terminal("b+", "B")], "abba", 1).unwrap();
    assert_eq!(one.output, "aBa");
    assert_eq!(one.steps, 1);
    assert!(one.terminated);
}

#[test]
fn search_matches_start_strictly_later_and_are_few() {
    let input = "abab";
    let found = find_all("(ab)?", input).unwrap();
    assert!(found.len() <= input.chars().count() + 1);
    for pair in found.windows(2) {
        assert!(pair[0].start < pair[1].start);
        assert!(pair[0].end <= pair[1].start);
    }
    let texts: Vec<_> = found.iter().map(|m| m.text.as_str()).collect();
    assert_eq!(texts, vec!["ab", "ab", ""]);
    let rest = find_first("(ab)?", &input[found[1].start..]).unwrap().unwrap();
    assert_eq!(rest.text, found[1].text);
}

#[test]
fn captures_survive_later_rounds_and_groups() {
    let found = match_full("{a:x}(y{b:z})*", "xyzyz").unwrap().unwrap();
    assert_eq!(
        found.captures,
        vec![("a".to_string(), "x".to_string()), ("b".to_string(), "z".to_string())]
    );
}
