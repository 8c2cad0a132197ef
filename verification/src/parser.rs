//! The pattern grammar: a recursive-descent parser from pattern text to
//! [`Expression`], proved to follow the grammar below.
//!
//! ```text
//! choice     := sequence ('|' sequence)*
//! sequence   := quantified*            (up to `)`, `}`, `|` or the end)
//! quantified := atom ('*' | '+' | '?')?
//! atom       := '(' choice ')' | '{' name ':' choice '}' | '[' '^'? item+ ']'
//!             | '.' | '\' escape | any other character but `*+?)}|`
//! ```
//!
//! Positions are character indices into the pattern.
use vstd::prelude::*;
use crate::expression::{
    CharacterClass, Expression, SpecExpression, exprs_view, lemma_exprs_view, lemma_exprs_view_push,
};
use crate::text::{
    chars_of, identifier_continue, identifier_run, identifier_start, is_identifier_continue,
    is_identifier_start, lemma_identifier_run, lemma_identifier_run_is, push_char,
};

verus! {

/// A pattern error: what is wrong, and at which character of the pattern.
#[derive(Clone, Debug, PartialEq, Eq)]
pub struct GrammarError {
    pub message: String,
    pub position: usize,
}

/// A pattern error in the grammar: its message and its position.
pub type SpecError = (Seq<char>, int);

/// What a part of the grammar gives at a position: a value and the position
/// after it, or an error.
pub type Parsed<T> = Result<(T, int), SpecError>;

/// The message for an unexpected metacharacter.
pub open spec fn token_message(c: char) -> Seq<char> {
    "unexpected token `"@ + seq![c] + "`"@
}

/// The message for a missing character at the end of the pattern.
pub open spec fn expected_message(c: char) -> Seq<char> {
    "expected `"@ + seq![c] + "`"@
}

/// The message for a character other than the one required.
pub open spec fn mismatch_message(expected: char, actual: char) -> Seq<char> {
    "expected `"@ + seq![expected] + "` but found `"@ + seq![actual] + "`"@
}

/// Characters that end a sequence.
pub open spec fn ends_sequence(c: char) -> bool {
    c == ')' || c == '}' || c == '|'
}

/// Characters that cannot start an atom.
pub open spec fn misplaced(c: char) -> bool {
    c == '*' || c == '+' || c == '?' || c == ')' || c == '}' || c == '|'
}

/// The character that the escape `\c` stands for.
pub open spec fn escaped(c: char) -> char {
    if c == 'n' {
        '\n'
    } else if c == 'r' {
        '\r'
    } else if c == 't' {
        '\t'
    } else {
        c
    }
}

/// The escape after a backslash.
pub open spec fn sp_escape(p: Seq<char>, pos: int) -> Parsed<char> {
    if 0 <= pos < p.len() {
        Ok((escaped(p[pos]), pos + 1))
    } else {
        Err(("unterminated escape sequence"@, pos))
    }
}

/// One character of a class: a plain character or an escape.
pub open spec fn sp_class_char(p: Seq<char>, pos: int) -> Parsed<char> {
    if 0 <= pos < p.len() {
        if p[pos] == '\\' {
            sp_escape(p, pos + 1)
        } else {
            Ok((p[pos], pos + 1))
        }
    } else {
        Err(("expected character class item"@, pos))
    }
}

/// The items of a class up to and including the closing `]`, added to `ranges`.
/// A `-` between two characters makes a range, unless it comes right before `]`.
pub open spec fn sp_class_items(p: Seq<char>, pos: int, ranges: Seq<(char, char)>) -> Parsed<
    Seq<(char, char)>,
>
    decreases p.len() - pos,
{
    if pos < 0 || pos >= p.len() {
        Err(("unterminated character class"@, pos))
    } else if p[pos] == ']' {
        Ok((ranges, pos + 1))
    } else {
        match sp_class_char(p, pos) {
            Err(e) => Err(e),
            Ok((start, e1)) => {
                if e1 < p.len() && p[e1] == '-' && !(e1 + 1 < p.len() && p[e1 + 1] == ']') {
                    match sp_class_char(p, e1 + 1) {
                        Err(e) => Err(e),
                        Ok((end, e2)) => sp_class_items(p, e2, ranges.push((start, end))),
                    }
                } else {
                    sp_class_items(p, e1, ranges.push((start, start)))
                }
            },
        }
    }
}

/// A class after its `[`: an optional `^`, then at least one item, then `]`.
pub open spec fn sp_class(p: Seq<char>, pos: int) -> Parsed<SpecExpression> {
    let inverted = 0 <= pos < p.len() && p[pos] == '^';
    let first = if inverted {
        pos + 1
    } else {
        pos
    };
    match sp_class_items(p, first, Seq::empty()) {
        Err(e) => Err(e),
        Ok((ranges, end)) => if ranges.len() == 0 {
            Err(("empty character class"@, end))
        } else {
            Ok((SpecExpression::Class { ranges, inverted }, end))
        },
    }
}

/// The length of the name at `pos`: a character that may start a name, then
/// those that may continue one.
pub open spec fn name_len(p: Seq<char>, pos: int) -> nat {
    if 0 <= pos < p.len() && identifier_start(p[pos]) {
        1 + identifier_run(p.skip(pos + 1))
    } else {
        0
    }
}

/// The character `c` at `pos`.
pub open spec fn sp_expect(p: Seq<char>, pos: int, c: char) -> Result<int, SpecError> {
    if 0 <= pos < p.len() {
        if p[pos] == c {
            Ok(pos + 1)
        } else {
            Err((mismatch_message(c, p[pos]), pos))
        }
    } else {
        Err((expected_message(c), pos))
    }
}

/// Alternatives separated by `|`; a single one stands for itself.
///
/// Here and below, a part that the grammar recurses on is checked to end after
/// where it started and within the pattern; the parts always do
/// (`lemma_choice_within` and its companions), so these checks only keep the
/// definitions well founded.
pub open spec fn sp_choice(p: Seq<char>, pos: int) -> Parsed<SpecExpression>
    decreases p.len() - pos, 5int,
{
    match sp_sequence(p, pos) {
        Err(e) => Err(e),
        Ok((first, end)) => if pos <= end <= p.len() {
            sp_choice_rest(p, end, seq![first])
        } else {
            Ok((first, end))
        },
    }
}

/// The further `| sequence` alternatives after `alts`.
pub open spec fn sp_choice_rest(p: Seq<char>, pos: int, alts: Seq<SpecExpression>) -> Parsed<SpecExpression>
    decreases p.len() - pos, 4int,
{
    if 0 <= pos < p.len() && p[pos] == '|' {
        match sp_sequence(p, pos + 1) {
            Err(e) => Err(e),
            Ok((alt, end)) => if pos < end <= p.len() {
                sp_choice_rest(p, end, alts.push(alt))
            } else {
                Ok((alt, end))
            },
        }
    } else if alts.len() == 1 {
        Ok((alts[0], pos))
    } else {
        Ok((SpecExpression::Choice(alts), pos))
    }
}

/// Quantified atoms up to `)`, `}`, `|` or the end: none is `Empty`, one
/// stands for itself, more make a `Sequence`.
pub open spec fn sp_sequence(p: Seq<char>, pos: int) -> Parsed<SpecExpression>
    decreases p.len() - pos, 3int,
{
    match sp_seq_items(p, pos, Seq::empty()) {
        Err(e) => Err(e),
        Ok((items, end)) => if items.len() == 0 {
            Ok((SpecExpression::Empty, end))
        } else if items.len() == 1 {
            Ok((items[0], end))
        } else {
            Ok((SpecExpression::Sequence(items), end))
        },
    }
}

/// The quantified atoms from `pos` on, added to `items`.
pub open spec fn sp_seq_items(p: Seq<char>, pos: int, items: Seq<SpecExpression>) -> Parsed<Seq<SpecExpression>>
    decreases p.len() - pos, 2int,
{
    if 0 <= pos < p.len() && !ends_sequence(p[pos]) {
        match sp_quantified(p, pos) {
            Err(e) => Err(e),
            Ok((item, end)) => if pos < end <= p.len() {
                sp_seq_items(p, end, items.push(item))
            } else {
                Ok((items.push(item), end))
            },
        }
    } else {
        Ok((items, pos))
    }
}

/// An atom, repeated by a following `*` (any number of times), `+` (at least
/// once) or `?` (at most once).
pub open spec fn sp_quantified(p: Seq<char>, pos: int) -> Parsed<SpecExpression>
    decreases p.len() - pos, 1int,
{
    match sp_atom(p, pos) {
        Err(e) => Err(e),
        Ok((atom, end)) => if 0 <= end < p.len() && p[end] == '*' {
            Ok((SpecExpression::Repeat { expression: Box::new(atom), min: 0, max: None }, end + 1))
        } else if 0 <= end < p.len() && p[end] == '+' {
            Ok((SpecExpression::Repeat { expression: Box::new(atom), min: 1, max: None }, end + 1))
        } else if 0 <= end < p.len() && p[end] == '?' {
            Ok((SpecExpression::Repeat { expression: Box::new(atom), min: 0, max: Some(1) }, end + 1))
        } else {
            Ok((atom, end))
        },
    }
}

/// A group, a capture, a class, the wildcard `.`, an escape, or a literal character.
pub open spec fn sp_atom(p: Seq<char>, pos: int) -> Parsed<SpecExpression>
    decreases p.len() - pos, 0int,
{
    if pos < 0 || pos >= p.len() {
        Err(("expected expression"@, pos))
    } else {
        let c = p[pos];
        if c == '(' {
            match sp_choice(p, pos + 1) {
                Err(e) => Err(e),
                Ok((inner, end)) => match sp_expect(p, end, ')') {
                    Err(e) => Err(e),
                    Ok(after) => Ok((inner, after)),
                },
            }
        } else if c == '{' {
            sp_capture(p, pos + 1)
        } else if c == '[' {
            sp_class(p, pos + 1)
        } else if c == '.' {
            Ok((SpecExpression::Any, pos + 1))
        } else if c == '\\' {
            match sp_escape(p, pos + 1) {
                Err(e) => Err(e),
                Ok((v, end)) => Ok((SpecExpression::Literal(v), end)),
            }
        } else if misplaced(c) {
            Err((token_message(c), pos))
        } else {
            Ok((SpecExpression::Literal(c), pos + 1))
        }
    }
}

/// A capture after its `{`: a name, `:`, a choice, and `}`.
pub open spec fn sp_capture(p: Seq<char>, pos: int) -> Parsed<SpecExpression>
    decreases p.len() - pos, 0int,
{
    let n = name_len(p, pos);
    if n == 0 {
        Err(("expected capture name"@, pos))
    } else {
        match sp_expect(p, pos + n, ':') {
            Err(e) => Err(e),
            Ok(body) => match sp_choice(p, body) {
                Err(e) => Err(e),
                Ok((inner, end)) => match sp_expect(p, end, '}') {
                    Err(e) => Err(e),
                    Ok(after) => Ok((
                        SpecExpression::Capture {
                            name: p.subrange(pos, pos + n),
                            expression: Box::new(inner),
                        },
                        after,
                    )),
                },
            },
        }
    }
}

/// The expression that the whole pattern `p` denotes, or the first error in it.
pub open spec fn parse_spec(p: Seq<char>) -> Result<SpecExpression, SpecError> {
    match sp_choice(p, 0) {
        Err(e) => Err(e),
        Ok((e, end)) => if end < p.len() {
            Err(("unexpected token"@, end))
        } else {
            Ok(e)
        },
    }
}

/// A result ends within the pattern, after `pos` (strictly, when `strict`), and
/// an error lies within the pattern.
pub open spec fn parsed_within<T>(r: Parsed<T>, pos: int, len: int, strict: bool) -> bool {
    match r {
        Ok((_, end)) => (if strict {
            pos < end
        } else {
            pos <= end
        }) && end <= len,
        Err((_, at)) => 0 <= at <= len,
    }
}

proof fn lemma_class_items_within(p: Seq<char>, pos: int, ranges: Seq<(char, char)>)
    requires
        0 <= pos <= p.len(),
    ensures
        parsed_within(sp_class_items(p, pos, ranges), pos, p.len() as int, true),
        sp_class_items(p, pos, ranges) matches Ok((r, _)) ==> r.len() >= ranges.len(),
    decreases p.len() - pos,
{
    if pos < p.len() && p[pos] != ']' {
        match sp_class_char(p, pos) {
            Err(e) => {},
            Ok((start, e1)) => {
                if e1 < p.len() && p[e1] == '-' && !(e1 + 1 < p.len() && p[e1 + 1] == ']') {
                    match sp_class_char(p, e1 + 1) {
                        Err(e) => {},
                        Ok((end, e2)) => {
                            lemma_class_items_within(p, e2, ranges.push((start, end)));
                        },
                    }
                } else {
                    lemma_class_items_within(p, e1, ranges.push((start, start)));
                }
            },
        }
    }
}

proof fn lemma_class_within(p: Seq<char>, pos: int)
    requires
        0 <= pos <= p.len(),
    ensures
        parsed_within(sp_class(p, pos), pos, p.len() as int, true),
{
    let inverted = 0 <= pos < p.len() && p[pos] == '^';
    let first = if inverted {
        pos + 1
    } else {
        pos
    };
    lemma_class_items_within(p, first, Seq::empty());
}

proof fn lemma_name_len(p: Seq<char>, pos: int)
    requires
        0 <= pos <= p.len(),
    ensures
        pos + name_len(p, pos) <= p.len(),
{
    if 0 <= pos < p.len() && identifier_start(p[pos]) {
        lemma_identifier_run(p.skip(pos + 1));
    }
}

proof fn lemma_choice_within(p: Seq<char>, pos: int)
    requires
        0 <= pos <= p.len(),
    ensures
        parsed_within(sp_choice(p, pos), pos, p.len() as int, false),
    decreases p.len() - pos, 5int,
{
    lemma_sequence_within(p, pos);
    match sp_sequence(p, pos) {
        Err(e) => {},
        Ok((first, end)) => {
            lemma_choice_rest_within(p, end, seq![first]);
        },
    }
}

proof fn lemma_choice_rest_within(p: Seq<char>, pos: int, alts: Seq<SpecExpression>)
    requires
        0 <= pos <= p.len(),
    ensures
        parsed_within(sp_choice_rest(p, pos, alts), pos, p.len() as int, false),
    decreases p.len() - pos, 4int,
{
    if 0 <= pos < p.len() && p[pos] == '|' {
        lemma_sequence_within(p, pos + 1);
        match sp_sequence(p, pos + 1) {
            Err(e) => {},
            Ok((alt, end)) => {
                lemma_choice_rest_within(p, end, alts.push(alt));
            },
        }
    }
}

pub proof fn lemma_sequence_within(p: Seq<char>, pos: int)
    requires
        0 <= pos <= p.len(),
    ensures
        parsed_within(sp_sequence(p, pos), pos, p.len() as int, false),
    decreases p.len() - pos, 3int,
{
    lemma_seq_items_within(p, pos, Seq::empty());
}

proof fn lemma_seq_items_within(p: Seq<char>, pos: int, items: Seq<SpecExpression>)
    requires
        0 <= pos <= p.len(),
    ensures
        parsed_within(sp_seq_items(p, pos, items), pos, p.len() as int, false),
        sp_seq_items(p, pos, items) matches Ok((r, _)) ==> r.len() >= items.len(),
    decreases p.len() - pos, 2int,
{
    if 0 <= pos < p.len() && !ends_sequence(p[pos]) {
        lemma_quantified_within(p, pos);
        match sp_quantified(p, pos) {
            Err(e) => {},
            Ok((item, end)) => {
                lemma_seq_items_within(p, end, items.push(item));
            },
        }
    }
}

proof fn lemma_quantified_within(p: Seq<char>, pos: int)
    requires
        0 <= pos <= p.len(),
    ensures
        parsed_within(sp_quantified(p, pos), pos, p.len() as int, true),
    decreases p.len() - pos, 1int,
{
    lemma_atom_within(p, pos);
}

pub proof fn lemma_atom_within(p: Seq<char>, pos: int)
    requires
        0 <= pos <= p.len(),
    ensures
        parsed_within(sp_atom(p, pos), pos, p.len() as int, true),
    decreases p.len() - pos, 0int,
{
    if pos < p.len() {
        let c = p[pos];
        if c == '(' {
            lemma_choice_within(p, pos + 1);
        } else if c == '{' {
            lemma_capture_within(p, pos + 1);
        } else if c == '[' {
            lemma_class_within(p, pos + 1);
        }
    }
}

proof fn lemma_capture_within(p: Seq<char>, pos: int)
    requires
        0 <= pos <= p.len(),
    ensures
        parsed_within(sp_capture(p, pos), pos, p.len() as int, true),
    decreases p.len() - pos, 0int,
{
    let n = name_len(p, pos);
    lemma_name_len(p, pos);
    if n > 0 {
        match sp_expect(p, pos + n, ':') {
            Err(e) => {},
            Ok(body) => {
                lemma_choice_within(p, body);
            },
        }
    }
}

/// Parsing a pattern either succeeds or fails at a position within the pattern.
pub proof fn lemma_parse_error_within(p: Seq<char>)
    ensures
        parse_spec(p) matches Err((_, at)) ==> 0 <= at <= p.len(),
{
    lemma_choice_within(p, 0);
}

/// A capture name: a character that may start a name, then characters that may continue one.
pub open spec fn is_name(name: Seq<char>) -> bool {
    &&& name.len() > 0
    &&& identifier_start(name[0])
    &&& forall|i: int| 1 <= i < name.len() ==> identifier_continue(#[trigger] name[i])
}

/// The shapes that parsing gives: sequences and choices of at least two items,
/// only the repetitions `*`, `+` and `?`, classes with at least one range, and
/// captures under a valid name.
pub open spec fn well_formed(e: SpecExpression) -> bool
    decreases e,
{
    match e {
        SpecExpression::Sequence(items) => items.len() >= 2 && forall|i: int|
            0 <= i < items.len() ==> well_formed(#[trigger] items[i]),
        SpecExpression::Choice(items) => items.len() >= 2 && forall|i: int|
            0 <= i < items.len() ==> well_formed(#[trigger] items[i]),
        SpecExpression::Repeat { expression, min, max } => {
            &&& (min == 0 && max == None::<usize>) || (min == 1 && max == None::<usize>) || (min == 0
                && max == Some(1usize))
            &&& well_formed(*expression)
        },
        SpecExpression::Class { ranges, inverted } => ranges.len() > 0,
        SpecExpression::Capture { name, expression } => is_name(name) && well_formed(*expression),
        _ => true,
    }
}

/// A parse result, when there is one, is well formed.
pub open spec fn parsed_well_formed(r: Parsed<SpecExpression>) -> bool {
    r matches Ok((x, _)) ==> well_formed(x)
}

/// All of a list of parsed items are well formed.
pub open spec fn all_well_formed(items: Seq<SpecExpression>) -> bool {
    forall|i: int| 0 <= i < items.len() ==> well_formed(#[trigger] items[i])
}

proof fn lemma_choice_well_formed(p: Seq<char>, pos: int)
    ensures
        parsed_well_formed(sp_choice(p, pos)),
    decreases p.len() - pos, 5int,
{
    lemma_sequence_well_formed(p, pos);
    match sp_sequence(p, pos) {
        Err(e) => {},
        Ok((first, end)) => {
            if pos <= end <= p.len() {
                lemma_choice_rest_well_formed(p, end, seq![first]);
            }
        },
    }
}

proof fn lemma_choice_rest_well_formed(p: Seq<char>, pos: int, alts: Seq<SpecExpression>)
    requires
        all_well_formed(alts),
        alts.len() >= 1,
    ensures
        parsed_well_formed(sp_choice_rest(p, pos, alts)),
    decreases p.len() - pos, 4int,
{
    if 0 <= pos < p.len() && p[pos] == '|' {
        lemma_sequence_well_formed(p, pos + 1);
        match sp_sequence(p, pos + 1) {
            Err(e) => {},
            Ok((alt, end)) => {
                if pos < end <= p.len() {
                    assert(all_well_formed(alts.push(alt))) by {
                        assert forall|i: int| 0 <= i < alts.push(alt).len() implies well_formed(
                            #[trigger] alts.push(alt)[i],
                        ) by {
                            if i < alts.len() {
                                assert(alts.push(alt)[i] == alts[i]);
                            }
                        }
                    }
                    lemma_choice_rest_well_formed(p, end, alts.push(alt));
                }
            },
        }
    } else if alts.len() == 1 {
        assert(well_formed(alts[0]));
    }
}

proof fn lemma_sequence_well_formed(p: Seq<char>, pos: int)
    ensures
        parsed_well_formed(sp_sequence(p, pos)),
    decreases p.len() - pos, 3int,
{
    lemma_seq_items_well_formed(p, pos, Seq::empty());
    match sp_seq_items(p, pos, Seq::empty()) {
        Err(e) => {},
        Ok((items, end)) => {
            if items.len() == 1 {
                assert(well_formed(items[0]));
            }
        },
    }
}

proof fn lemma_seq_items_well_formed(p: Seq<char>, pos: int, items: Seq<SpecExpression>)
    requires
        all_well_formed(items),
    ensures
        sp_seq_items(p, pos, items) matches Ok((r, _)) ==> all_well_formed(r),
    decreases p.len() - pos, 2int,
{
    if 0 <= pos < p.len() && !ends_sequence(p[pos]) {
        lemma_quantified_well_formed(p, pos);
        match sp_quantified(p, pos) {
            Err(e) => {},
            Ok((item, end)) => {
                assert(all_well_formed(items.push(item))) by {
                    assert forall|i: int| 0 <= i < items.push(item).len() implies well_formed(
                        #[trigger] items.push(item)[i],
                    ) by {
                        if i < items.len() {
                            assert(items.push(item)[i] == items[i]);
                        }
                    }
                }
                if pos < end <= p.len() {
                    lemma_seq_items_well_formed(p, end, items.push(item));
                }
            },
        }
    }
}

proof fn lemma_quantified_well_formed(p: Seq<char>, pos: int)
    ensures
        parsed_well_formed(sp_quantified(p, pos)),
    decreases p.len() - pos, 1int,
{
    lemma_atom_well_formed(p, pos);
}

proof fn lemma_atom_well_formed(p: Seq<char>, pos: int)
    ensures
        parsed_well_formed(sp_atom(p, pos)),
    decreases p.len() - pos, 0int,
{
    if 0 <= pos < p.len() {
        let c = p[pos];
        if c == '(' {
            lemma_choice_well_formed(p, pos + 1);
        } else if c == '{' {
            lemma_capture_well_formed(p, pos + 1);
        } else if c == '[' {
            let inverted = 0 <= pos + 1 < p.len() && p[pos + 1] == '^';
            let first = if inverted {
                pos + 2
            } else {
                pos + 1
            };
            lemma_class_items_within(p, first, Seq::empty());
        }
    }
}

proof fn lemma_capture_well_formed(p: Seq<char>, pos: int)
    ensures
        parsed_well_formed(sp_capture(p, pos)),
    decreases p.len() - pos, 0int,
{
    let n = name_len(p, pos);
    if n > 0 {
        match sp_expect(p, pos + n, ':') {
            Err(e) => {},
            Ok(body) => {
                lemma_choice_well_formed(p, body);
                let name = p.subrange(pos, pos + n);
                lemma_identifier_run(p.skip(pos + 1));
                assert forall|i: int| 1 <= i < name.len() implies identifier_continue(#[trigger] name[i]) by {
                    assert(name[i] == p.skip(pos + 1)[i - 1]);
                }
                assert(is_name(name));
            },
        }
    }
}

/// Every expression that parsing gives is well formed.
pub proof fn lemma_parse_well_formed(p: Seq<char>)
    ensures
        parse_spec(p) matches Ok(x) ==> well_formed(x),
{
    lemma_choice_well_formed(p, 0);
}

/// `g` is the error `e`.
pub open spec fn error_is(g: GrammarError, e: SpecError) -> bool {
    g.message@ == e.0 && g.position == e.1
}

/// `r` is what the grammar gives, `pos` being where the parser stopped.
pub open spec fn expr_outcome(r: Result<Expression, GrammarError>, pos: int, s: Parsed<SpecExpression>) -> bool {
    match s {
        Ok((x, end)) => r matches Ok(v) && v@ == x && pos == end,
        Err(e) => r matches Err(g) && error_is(g, e),
    }
}

/// `r` is the character that the grammar gives, `pos` being where the parser stopped.
pub open spec fn char_outcome(r: Result<char, GrammarError>, pos: int, s: Parsed<char>) -> bool {
    match s {
        Ok((x, end)) => r matches Ok(v) && v == x && pos == end,
        Err(e) => r matches Err(g) && error_is(g, e),
    }
}

/// The character of the decimal digit `d` (below ten).
pub open spec fn digit_char(d: nat) -> char {
    if d == 0 {
        '0'
    } else if d == 1 {
        '1'
    } else if d == 2 {
        '2'
    } else if d == 3 {
        '3'
    } else if d == 4 {
        '4'
    } else if d == 5 {
        '5'
    } else if d == 6 {
        '6'
    } else if d == 7 {
        '7'
    } else if d == 8 {
        '8'
    } else {
        '9'
    }
}

/// The decimal digits of `n`, without leading zeros.
pub open spec fn decimal(n: nat) -> Seq<char>
    decreases n,
{
    if n < 10 {
        seq![digit_char(n)]
    } else {
        decimal(n / 10).push(digit_char(n % 10))
    }
}

/// The character of the decimal digit `d`.
fn digit(d: usize) -> (c: char)
    requires
        d < 10,
    ensures
        c == digit_char(d as nat),
{
    if d == 0 {
        '0'
    } else if d == 1 {
        '1'
    } else if d == 2 {
        '2'
    } else if d == 3 {
        '3'
    } else if d == 4 {
        '4'
    } else if d == 5 {
        '5'
    } else if d == 6 {
        '6'
    } else if d == 7 {
        '7'
    } else if d == 8 {
        '8'
    } else {
        '9'
    }
}

/// Appends the decimal digits of `n` to `s`.
fn push_decimal(s: &mut String, n: usize)
    ensures
        final(s)@ == old(s)@ + decimal(n as nat),
    decreases n,
{
    let ghost start = s@;
    if n >= 10 {
        push_decimal(s, n / 10);
    }
    push_char(s, digit(n % 10));
    assert(s@ =~= start + decimal(n as nat));
}

impl GrammarError {
    /// The error as text: the message, then where in the pattern it is.
    pub fn describe(&self) -> (s: String)
        ensures
            s@ == self.message@ + " at pattern position "@ + decimal(self.position as nat),
    {
        let mut s = self.message.clone();
        s.append(" at pattern position ");
        push_decimal(&mut s, self.position);
        s
    }

    fn new(message: String, position: usize) -> (r: Self)
        ensures
            r.message@ == message@,
            r.position == position,
    {
        GrammarError { message, position }
    }
}

/// `prefix`, then `c`, then `suffix`.
fn message_with(prefix: &str, c: char, suffix: &str) -> (r: String)
    ensures
        r@ == prefix@ + seq![c] + suffix@,
{
    let mut m = prefix.to_owned();
    push_char(&mut m, c);
    m.append(suffix);
    m
}

/// A recursive-descent parser over the characters of a pattern.
struct Parser {
    chars: Vec<char>,
    pos: usize,
}

impl Parser {
    fn new(pattern: &str) -> (r: Self)
        ensures
            r.chars@ == pattern@,
            r.pos == 0,
    {
        Parser { chars: chars_of(pattern), pos: 0 }
    }

    /// The whole pattern as one expression.
    fn parse(self) -> (r: Result<Expression, GrammarError>)
        requires
            self.pos == 0,
        ensures
            match parse_spec(self.chars@) {
                Ok(x) => r matches Ok(v) && v@ == x,
                Err(e) => r matches Err(g) && error_is(g, e),
            },
    {
        let mut parser = self;
        let expression = match parser.parse_choice() {
            Ok(e) => e,
            Err(e) => return Err(e),
        };
        if parser.peek().is_some() {
            return Err(parser.error("unexpected token".to_owned()));
        }
        Ok(expression)
    }

    fn parse_choice(&mut self) -> (r: Result<Expression, GrammarError>)
        requires
            old(self).pos <= old(self).chars.len(),
        ensures
            final(self).chars@ == old(self).chars@,
            final(self).pos <= final(self).chars.len(),
            expr_outcome(r, final(self).pos as int, sp_choice(old(self).chars@, old(self).pos as int)),
        decreases old(self).chars.len() - old(self).pos, 5int,
    {
        let ghost p = self.chars@;
        let ghost start = self.pos as int;
        proof {
            lemma_sequence_within(p, start);
        }
        let first = match self.parse_sequence() {
            Ok(e) => e,
            Err(e) => return Err(e),
        };
        let mut alternatives: Vec<Expression> = Vec::new();
        alternatives.push(first);
        assert(exprs_view(alternatives@) =~= seq![first@]) by {
            lemma_exprs_view(alternatives@);
        }
        loop
            invariant_except_break
                sp_choice_rest(p, self.pos as int, exprs_view(alternatives@)) == sp_choice(p, start),
            invariant
                self.chars@ == p,
                start <= self.pos <= self.chars.len(),
                start == old(self).pos,
                p == old(self).chars@,
                alternatives.len() >= 1,
            ensures
                !(self.pos < p.len() && p[self.pos as int] == '|'),
                sp_choice_rest(p, self.pos as int, exprs_view(alternatives@)) == sp_choice(p, start),
            decreases self.chars.len() - self.pos,
        {
            match self.peek() {
                Some(c) => {
                    if c != '|' {
                        break;
                    }
                },
                None => break,
            }
            self.next();
            proof {
                lemma_sequence_within(p, self.pos as int);
            }
            let ghost before = exprs_view(alternatives@);
            let alternative = match self.parse_sequence() {
                Ok(e) => e,
                Err(e) => return Err(e),
            };
            let ghost alt = alternative@;
            proof {
                lemma_exprs_view_push(alternatives@, alternative);
            }
            alternatives.push(alternative);
        }
        proof {
            lemma_exprs_view(alternatives@);
        }
        if alternatives.len() == 1 {
            Ok(alternatives.remove(0))
        } else {
            Ok(Expression::Choice(alternatives))
        }
    }

    fn parse_sequence(&mut self) -> (r: Result<Expression, GrammarError>)
        requires
            old(self).pos <= old(self).chars.len(),
        ensures
            final(self).chars@ == old(self).chars@,
            final(self).pos <= final(self).chars.len(),
            expr_outcome(r, final(self).pos as int, sp_sequence(old(self).chars@, old(self).pos as int)),
        decreases old(self).chars.len() - old(self).pos, 3int,
    {
        let ghost p = self.chars@;
        let ghost start = self.pos as int;
        let mut expressions: Vec<Expression> = Vec::new();
        assert(exprs_view(expressions@) =~= Seq::<SpecExpression>::empty());
        loop
            invariant_except_break
                sp_seq_items(p, self.pos as int, exprs_view(expressions@)) == sp_seq_items(
                    p,
                    start,
                    Seq::empty(),
                ),
            invariant
                self.chars@ == p,
                start <= self.pos <= self.chars.len(),
                start == old(self).pos,
                p == old(self).chars@,
            ensures
                !(self.pos < p.len() && !ends_sequence(p[self.pos as int])),
                sp_seq_items(p, self.pos as int, exprs_view(expressions@)) == sp_seq_items(
                    p,
                    start,
                    Seq::empty(),
                ),
            decreases self.chars.len() - self.pos,
        {
            match self.peek() {
                Some(value) => {
                    if value == ')' || value == '}' || value == '|' {
                        break;
                    }
                },
                None => break,
            }
            proof {
                lemma_quantified_within(p, self.pos as int);
            }
            let item = match self.parse_quantified() {
                Ok(e) => e,
                Err(e) => return Err(e),
            };
            proof {
                lemma_exprs_view_push(expressions@, item);
            }
            expressions.push(item);
        }
        proof {
            lemma_exprs_view(expressions@);
        }
        if expressions.len() == 0 {
            Ok(Expression::Empty)
        } else if expressions.len() == 1 {
            Ok(expressions.remove(0))
        } else {
            Ok(Expression::Sequence(expressions))
        }
    }

    fn parse_quantified(&mut self) -> (r: Result<Expression, GrammarError>)
        requires
            old(self).pos <= old(self).chars.len(),
        ensures
            final(self).chars@ == old(self).chars@,
            final(self).pos <= final(self).chars.len(),
            expr_outcome(r, final(self).pos as int, sp_quantified(old(self).chars@, old(self).pos as int)),
        decreases old(self).chars.len() - old(self).pos, 1int,
    {
        proof {
            lemma_atom_within(self.chars@, self.pos as int);
        }
        let expression = match self.parse_atom() {
            Ok(e) => e,
            Err(e) => return Err(e),
        };
        match self.peek() {
            Some(c) => {
                if c == '*' {
                    self.next();
                    Ok(Expression::Repeat { expression: Box::new(expression), min: 0, max: None })
                } else if c == '+' {
                    self.next();
                    Ok(Expression::Repeat { expression: Box::new(expression), min: 1, max: None })
                } else if c == '?' {
                    self.next();
                    Ok(Expression::Repeat { expression: Box::new(expression), min: 0, max: Some(1) })
                } else {
                    Ok(expression)
                }
            },
            None => Ok(expression),
        }
    }

    fn parse_atom(&mut self) -> (r: Result<Expression, GrammarError>)
        requires
            old(self).pos <= old(self).chars.len(),
        ensures
            final(self).chars@ == old(self).chars@,
            final(self).pos <= final(self).chars.len(),
            expr_outcome(r, final(self).pos as int, sp_atom(old(self).chars@, old(self).pos as int)),
        decreases old(self).chars.len() - old(self).pos, 0int,
    {
        let ghost p = self.chars@;
        let ghost start = self.pos as int;
        match self.next() {
            Some(c) => {
                if c == '(' {
                    proof {
                        lemma_choice_within(p, start + 1);
                    }
                    let expression = match self.parse_choice() {
                        Ok(e) => e,
                        Err(e) => return Err(e),
                    };
                    match self.expect(')') {
                        Ok(()) => Ok(expression),
                        Err(e) => Err(e),
                    }
                } else if c == '{' {
                    self.parse_capture()
                } else if c == '[' {
                    self.parse_class()
                } else if c == '.' {
                    Ok(Expression::Any)
                } else if c == '\\' {
                    match self.parse_escape() {
                        Ok(v) => Ok(Expression::literal(v)),
                        Err(e) => Err(e),
                    }
                } else if c == '*' || c == '+' || c == '?' || c == ')' || c == '}' || c == '|' {
                    Err(Self::error_at(message_with("unexpected token `", c, "`"), self.pos - 1))
                } else {
                    Ok(Expression::literal(c))
                }
            },
            None => Err(self.error("expected expression".to_owned())),
        }
    }

    fn parse_capture(&mut self) -> (r: Result<Expression, GrammarError>)
        requires
            old(self).pos <= old(self).chars.len(),
        ensures
            final(self).chars@ == old(self).chars@,
            final(self).pos <= final(self).chars.len(),
            expr_outcome(r, final(self).pos as int, sp_capture(old(self).chars@, old(self).pos as int)),
        decreases old(self).chars.len() - old(self).pos, 0int,
    {
        let ghost p = self.chars@;
        let name_position = self.pos;
        let name = self.parse_identifier();
        if name.as_str().is_empty() {
            return Err(Self::error_at("expected capture name".to_owned(), name_position));
        }
        match self.expect(':') {
            Ok(()) => {},
            Err(e) => return Err(e),
        }
        proof {
            lemma_choice_within(p, self.pos as int);
        }
        let expression = match self.parse_choice() {
            Ok(e) => e,
            Err(e) => return Err(e),
        };
        match self.expect('}') {
            Ok(()) => {},
            Err(e) => return Err(e),
        }
        Ok(Expression::Capture { name, expression: Box::new(expression) })
    }

    fn parse_class(&mut self) -> (r: Result<Expression, GrammarError>)
        requires
            old(self).pos <= old(self).chars.len(),
        ensures
            final(self).chars@ == old(self).chars@,
            final(self).pos <= final(self).chars.len(),
            expr_outcome(r, final(self).pos as int, sp_class(old(self).chars@, old(self).pos as int)),
    {
        let ghost p = self.chars@;
        let inverted = match self.peek() {
            Some(c) => c == '^',
            None => false,
        };
        if inverted {
            self.next();
        }
        let ghost first = self.pos as int;
        let mut ranges: Vec<(char, char)> = Vec::new();
        assert(inverted == (0 <= old(self).pos < p.len() && p[old(self).pos as int] == '^'));
        loop
            invariant_except_break
                sp_class_items(p, self.pos as int, ranges@) == sp_class_items(p, first, Seq::empty()),
            invariant
                self.chars@ == p,
                p == old(self).chars@,
                self.pos <= self.chars.len(),
                inverted == (0 <= old(self).pos < p.len() && p[old(self).pos as int] == '^'),
                first == if inverted { old(self).pos + 1 } else { old(self).pos as int },
            ensures
                sp_class_items(p, first, Seq::empty()) == Ok::<(Seq<(char, char)>, int), SpecError>((ranges@, self.pos as int)),
            decreases self.chars.len() - self.pos,
        {
            match self.peek() {
                Some(c) => {
                    if c == ']' {
                        self.next();
                        break;
                    }
                },
                None => {
                    return Err(self.error("unterminated character class".to_owned()));
                },
            }
            let start = match self.parse_class_char() {
                Ok(c) => c,
                Err(e) => return Err(e),
            };
            let dash = match self.peek() {
                Some(d) => d == '-',
                None => false,
            };
            let closing = dash && match self.peek_offset(1) {
                Some(d) => d == ']',
                None => false,
            };
            if dash && !closing {
                self.next();
                let end = match self.parse_class_char() {
                    Ok(c) => c,
                    Err(e) => return Err(e),
                };
                ranges.push((start, end));
            } else {
                ranges.push((start, start));
            }
        }
        if ranges.len() == 0 {
            return Err(self.error("empty character class".to_owned()));
        }
        Ok(Expression::Class(CharacterClass::new(ranges, inverted)))
    }

    fn parse_class_char(&mut self) -> (r: Result<char, GrammarError>)
        requires
            old(self).pos <= old(self).chars.len(),
        ensures
            final(self).chars@ == old(self).chars@,
            final(self).pos <= final(self).chars.len(),
            char_outcome(r, final(self).pos as int, sp_class_char(old(self).chars@, old(self).pos as int)),
    {
        match self.next() {
            Some(c) => {
                if c == '\\' {
                    self.parse_escape()
                } else {
                    Ok(c)
                }
            },
            None => Err(self.error("expected character class item".to_owned())),
        }
    }

    fn parse_escape(&mut self) -> (r: Result<char, GrammarError>)
        requires
            old(self).pos <= old(self).chars.len(),
        ensures
            final(self).chars@ == old(self).chars@,
            final(self).pos <= final(self).chars.len(),
            char_outcome(r, final(self).pos as int, sp_escape(old(self).chars@, old(self).pos as int)),
    {
        match self.next() {
            Some(c) => {
                if c == 'n' {
                    Ok('\n')
                } else if c == 'r' {
                    Ok('\r')
                } else if c == 't' {
                    Ok('\t')
                } else {
                    Ok(c)
                }
            },
            None => Err(self.error("unterminated escape sequence".to_owned())),
        }
    }

    /// The name at the current position, possibly empty.
    fn parse_identifier(&mut self) -> (name: String)
        requires
            old(self).pos <= old(self).chars.len(),
        ensures
            final(self).chars@ == old(self).chars@,
            final(self).pos == old(self).pos + name_len(old(self).chars@, old(self).pos as int),
            final(self).pos <= final(self).chars.len(),
            name@ == old(self).chars@.subrange(old(self).pos as int, final(self).pos as int),
    {
        let ghost p = self.chars@;
        let ghost start = self.pos as int;
        let mut name = String::new();
        match self.peek() {
            Some(value) => {
                if is_identifier_start(value) {
                    push_char(&mut name, value);
                    self.next();
                } else {
                    assert(name@ =~= p.subrange(start, start));
                    return name;
                }
            },
            None => {
                assert(name@ =~= p.subrange(start, start));
                return name;
            },
        }
        assert(name@ =~= p.subrange(start, self.pos as int));
        loop
            invariant
                self.chars@ == p,
                start + 1 <= self.pos <= self.chars.len(),
                start == old(self).pos,
                p == old(self).chars@,
                identifier_start(p[start]),
                forall|k: int| start + 1 <= k < self.pos ==> identifier_continue(#[trigger] p[k]),
                name@ == p.subrange(start, self.pos as int),
            ensures
                self.pos < p.len() ==> !identifier_continue(p[self.pos as int]),
            decreases self.chars.len() - self.pos,
        {
            match self.peek() {
                Some(value) => {
                    if !is_identifier_continue(value) {
                        break;
                    }
                    push_char(&mut name, value);
                    self.next();
                    assert(name@ =~= p.subrange(start, self.pos as int));
                },
                None => break,
            }
        }
        proof {
            let rest = p.skip(start + 1);
            assert forall|k: int| 0 <= k < self.pos - (start + 1) implies identifier_continue(#[trigger] rest[k]) by {
                assert(rest[k] == p[k + start + 1]);
            }
            if self.pos < p.len() {
                assert(rest[self.pos - (start + 1)] == p[self.pos as int]);
            }
            lemma_identifier_run_is(rest, self.pos - (start + 1));
        }
        name
    }

    /// Consumes the character `expected`.
    fn expect(&mut self, expected: char) -> (r: Result<(), GrammarError>)
        requires
            old(self).pos <= old(self).chars.len(),
        ensures
            final(self).chars@ == old(self).chars@,
            final(self).pos <= final(self).chars.len(),
            match sp_expect(old(self).chars@, old(self).pos as int, expected) {
                Ok(after) => r is Ok && final(self).pos == after,
                Err(e) => r matches Err(g) && error_is(g, e),
            },
            final(self).pos == if old(self).pos < old(self).chars.len() {
                old(self).pos + 1
            } else {
                old(self).pos as int
            },
    {
        match self.next() {
            Some(actual) => {
                if actual == expected {
                    Ok(())
                } else {
                    let mut message = message_with("expected `", expected, "` but found `");
                    push_char(&mut message, actual);
                    message.append("`");
                    assert(message@ =~= mismatch_message(expected, actual));
                    Err(Self::error_at(message, self.pos - 1))
                }
            },
            None => Err(self.error(message_with("expected `", expected, "`"))),
        }
    }

    fn peek(&self) -> (r: Option<char>)
        ensures
            r == if self.pos < self.chars.len() {
                Some(self.chars@[self.pos as int])
            } else {
                None::<char>
            },
    {
        if self.pos < self.chars.len() {
            Some(self.chars[self.pos])
        } else {
            None
        }
    }

    fn peek_offset(&self, offset: usize) -> (r: Option<char>)
        requires
            self.pos + offset <= usize::MAX,
        ensures
            r == if self.pos + offset < self.chars.len() {
                Some(self.chars@[self.pos + offset])
            } else {
                None::<char>
            },
    {
        if self.pos + offset < self.chars.len() {
            Some(self.chars[self.pos + offset])
        } else {
            None
        }
    }

    fn next(&mut self) -> (r: Option<char>)
        ensures
            final(self).chars == old(self).chars,
            old(self).pos < old(self).chars.len() ==> r == Some(old(self).chars@[old(self).pos as int])
                && final(self).pos == old(self).pos + 1,
            old(self).pos >= old(self).chars.len() ==> r is None && final(self).pos == old(self).pos,
    {
        let value = match self.peek() {
            Some(v) => v,
            None => return None,
        };
        self.pos = self.pos + 1;
        Some(value)
    }

    fn error(&self, message: String) -> (r: GrammarError)
        ensures
            r.message@ == message@,
            r.position == self.pos,
    {
        Self::error_at(message, self.pos)
    }

    fn error_at(message: String, position: usize) -> (r: GrammarError)
        ensures
            r.message@ == message@,
            r.position == position,
    {
        GrammarError::new(message, position)
    }
}

/// Parses a pattern into an expression, or reports the first error in it.
pub fn parse(pattern: &str) -> (r: Result<Expression, GrammarError>)
    ensures
        match parse_spec(pattern@) {
            Ok(x) => r matches Ok(v) && v@ == x,
            Err(e) => r matches Err(g) && error_is(g, e),
        },
        r matches Err(g) ==> g.position <= pattern@.len(),
        r matches Ok(v) ==> well_formed(v@),
{
    proof {
        lemma_parse_error_within(pattern@);
        lemma_parse_well_formed(pattern@);
    }
    Parser::new(pattern).parse()
}

} // verus!
