//! Matching, searching and replacing with patterns given as text: each parses
//! the pattern first and reports its first error.
use vstd::prelude::*;
use crate::engine::{
    MatchResult, find_all_expression, find_all_from, find_first_expression, full_match_state,
    match_full_expression, replace_all_expression, replace_all_spec, reports, reports_all,
};
use crate::matcher::{find_at, full_match};
use crate::parser::{GrammarError, error_is, parse, parse_spec};
use crate::text::chars_of;

verus! {

/// Whether `pattern` matches all of `input`.
pub fn is_match(pattern: &str, input: &str) -> (r: Result<bool, GrammarError>)
    ensures
        match parse_spec(pattern@) {
            Err(e) => r matches Err(g) && error_is(g, e),
            Ok(x) => r == Ok::<bool, GrammarError>(full_match(x, input@) is Some),
        },
{
    let expression = match parse(pattern) {
        Ok(e) => e,
        Err(e) => return Err(e),
    };
    let chars = chars_of(input);
    Ok(full_match_state(&expression, &chars).is_some())
}

/// The preferred way for `pattern` to match all of `input`, if there is one.
pub fn match_full(pattern: &str, input: &str) -> (r: Result<Option<MatchResult>, GrammarError>)
    ensures
        match parse_spec(pattern@) {
            Err(e) => r matches Err(g) && error_is(g, e),
            Ok(x) => r matches Ok(found) && match full_match(x, input@) {
                None => found is None,
                Some(st) => found matches Some(m) && reports(m, input@, 0, st),
            },
        },
{
    let expression = match parse(pattern) {
        Ok(e) => e,
        Err(e) => return Err(e),
    };
    Ok(match_full_expression(&expression, input))
}

/// The leftmost match of `pattern` in `input`, if any.
pub fn find_first(pattern: &str, input: &str) -> (r: Result<Option<MatchResult>, GrammarError>)
    ensures
        match parse_spec(pattern@) {
            Err(e) => r matches Err(g) && error_is(g, e),
            Ok(x) => r matches Ok(found) && match find_at(x, input@, 0) {
                None => found is None,
                Some((s, st)) => found matches Some(m) && reports(m, input@, s, st),
            },
        },
{
    let expression = match parse(pattern) {
        Ok(e) => e,
        Err(e) => return Err(e),
    };
    Ok(find_first_expression(&expression, input))
}

/// Every match of `pattern` that a left-to-right search of `input` finds.
pub fn find_all(pattern: &str, input: &str) -> (r: Result<Vec<MatchResult>, GrammarError>)
    ensures
        match parse_spec(pattern@) {
            Err(e) => r matches Err(g) && error_is(g, e),
            Ok(x) => r matches Ok(found) && reports_all(found@, input@, find_all_from(x, input@, 0)),
        },
{
    let expression = match parse(pattern) {
        Ok(e) => e,
        Err(e) => return Err(e),
    };
    Ok(find_all_expression(&expression, input))
}

/// `input` with every match of `pattern` replaced by what `replacement` renders for it.
pub fn replace_all(pattern: &str, replacement: &str, input: &str) -> (r: Result<String, GrammarError>)
    ensures
        match parse_spec(pattern@) {
            Err(e) => r matches Err(g) && error_is(g, e),
            Ok(x) => r matches Ok(out) && out@ == replace_all_spec(x, replacement@, input@),
        },
{
    let expression = match parse(pattern) {
        Ok(e) => e,
        Err(e) => return Err(e),
    };
    Ok(replace_all_expression(&expression, replacement, input))
}

} // verus!
