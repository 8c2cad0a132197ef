//! What the operations are for, stated over their inputs and results: what
//! each kind of expression admits, how whole matches are chosen and how a
//! search moves on, what each replacement form renders, in which order rewrite
//! rules are tried, and how the grammar builds each kind of expression.
use vstd::prelude::*;
use crate::captures::{CaptureList, capture_lookup, lemma_capture_insert_lookup};
use crate::engine::{find_all_from, lemma_brace_run_is, render};
use crate::expression::SpecExpression;
use crate::matcher::{
    SpecState, find_at, first_at, full_match, initial_state, lemma_find_at_within, lemma_match_expr_within,
    match_all, match_choice, match_expr, match_repeat, match_seq, repeat_each, states_within,
};
use crate::parser::{
    lemma_atom_within, lemma_sequence_within, parse_spec, sp_atom, sp_capture, sp_choice, sp_class_char,
    sp_class_items, sp_quantified, sp_seq_items, sp_sequence,
};
use crate::rewrite::{
    RewriteResult, SpecRule, apply_match, first_applicable, lemma_rewrite_outcome, lemma_rewrite_run, rewrite_outcome,
};
use crate::text::{identifier_continue, identifier_start, lemma_identifier_run_is};

verus! {

/// A literal admits exactly its own character: it steps over that character,
/// keeping the captures, and matches nothing anywhere else.
pub proof fn law_literal(c: char, input: Seq<char>, st: SpecState)
    ensures
        ({
            let r = match_expr(SpecExpression::Literal(c), input, st);
            &&& r.len() > 0 <==> (st.pos < input.len() && input[st.pos as int] == c)
            &&& r.len() <= 1
            &&& forall|i: int| 0 <= i < r.len() ==> r[i].pos == st.pos + 1 && r[i].caps == st.caps
        }),
{
}

/// The wildcard admits any one character.
pub proof fn law_any(input: Seq<char>, st: SpecState)
    ensures
        ({
            let r = match_expr(SpecExpression::Any, input, st);
            &&& r.len() > 0 <==> st.pos < input.len()
            &&& r.len() <= 1
            &&& forall|i: int| 0 <= i < r.len() ==> r[i].pos == st.pos + 1 && r[i].caps == st.caps
        }),
{
}

/// The empty expression matches only where it stands, changing nothing.
pub proof fn law_empty(input: Seq<char>, st: SpecState)
    ensures
        match_expr(SpecExpression::Empty, input, st) == seq![st],
{
}

/// A class admits one character that lies in one of its ranges, or, when
/// inverted, in none of them.
pub proof fn law_class(ranges: Seq<(char, char)>, inverted: bool, input: Seq<char>, st: SpecState)
    ensures
        ({
            let r = match_expr(SpecExpression::Class { ranges, inverted }, input, st);
            &&& r.len() > 0 <==> (st.pos < input.len() && (exists|k: int|
                0 <= k < ranges.len() && ranges[k].0 <= input[st.pos as int] && input[st.pos as int]
                    <= #[trigger] ranges[k].1) != inverted)
            &&& r.len() <= 1
            &&& forall|i: int| 0 <= i < r.len() ==> r[i].pos == st.pos + 1 && r[i].caps == st.caps
        }),
{
}

/// A capture reaches the states of its body, in the same order, and in each the
/// name looks up the text from where the capture began to where that state
/// stands; every other name keeps what it had.
pub proof fn law_capture(name: Seq<char>, body: SpecExpression, input: Seq<char>, st: SpecState, other: Seq<char>)
    ensures
        ({
            let inner = match_expr(body, input, st);
            let r = match_expr(
                SpecExpression::Capture { name, expression: Box::new(body) },
                input,
                st,
            );
            &&& r.len() == inner.len()
            &&& forall|i: int|
                0 <= i < r.len() ==> {
                    &&& #[trigger] r[i].pos == inner[i].pos
                    &&& capture_lookup(r[i].caps, name) == Some(
                        input.subrange(st.pos as int, inner[i].pos as int),
                    )
                    &&& other != name ==> capture_lookup(r[i].caps, other) == capture_lookup(
                        inner[i].caps,
                        other,
                    )
                }
        }),
{
    let inner = match_expr(body, input, st);
    let r = match_expr(SpecExpression::Capture { name, expression: Box::new(body) }, input, st);
    assert forall|i: int| 0 <= i < r.len() implies {
        &&& #[trigger] r[i].pos == inner[i].pos
        &&& capture_lookup(r[i].caps, name) == Some(input.subrange(st.pos as int, inner[i].pos as int))
        &&& other != name ==> capture_lookup(r[i].caps, other) == capture_lookup(inner[i].caps, other)
    } by {
        lemma_capture_insert_lookup(
            inner[i].caps,
            name,
            input.subrange(st.pos as int, inner[i].pos as int),
            other,
        );
    }
}

proof fn lemma_choice_commits(items: Seq<SpecExpression>, input: Seq<char>, st: SpecState, k: int)
    requires
        0 <= k < items.len(),
        match_expr(items[k], input, st).len() > 0,
        forall|j: int| 0 <= j < k ==> #[trigger] match_expr(items[j], input, st).len() == 0,
    ensures
        match_choice(items, input, st) == match_expr(items[k], input, st),
    decreases items.len(),
{
    if k > 0 {
        let rest = items.drop_first();
        assert(match_expr(items[0], input, st).len() == 0);
        assert forall|j: int| 0 <= j < k - 1 implies #[trigger] match_expr(rest[j], input, st).len() == 0 by {
            assert(rest[j] == items[j + 1]);
        }
        assert(rest[k - 1] == items[k]);
        lemma_choice_commits(rest, input, st, k - 1);
    }
}

proof fn lemma_choice_none(items: Seq<SpecExpression>, input: Seq<char>, st: SpecState)
    requires
        forall|j: int| 0 <= j < items.len() ==> #[trigger] match_expr(items[j], input, st).len() == 0,
    ensures
        match_choice(items, input, st).len() == 0,
    decreases items.len(),
{
    if items.len() > 0 {
        let rest = items.drop_first();
        assert(match_expr(items[0], input, st).len() == 0);
        assert forall|j: int| 0 <= j < rest.len() implies #[trigger] match_expr(rest[j], input, st).len() == 0 by {
            assert(rest[j] == items[j + 1]);
        }
        lemma_choice_none(rest, input, st);
    }
}

/// Ordered choice commits to the first alternative that matches at all: it
/// reaches exactly that alternative's states, or nothing when none matches.
pub proof fn law_choice(items: Seq<SpecExpression>, input: Seq<char>, st: SpecState, k: int)
    ensures
        0 <= k < items.len() && match_expr(items[k], input, st).len() > 0 && (forall|j: int|
            0 <= j < k ==> #[trigger] match_expr(items[j], input, st).len() == 0) ==> match_expr(
            SpecExpression::Choice(items),
            input,
            st,
        ) == match_expr(items[k], input, st),
        (forall|j: int| 0 <= j < items.len() ==> #[trigger] match_expr(items[j], input, st).len() == 0)
            ==> match_expr(SpecExpression::Choice(items), input, st).len() == 0,
{
    if 0 <= k < items.len() && match_expr(items[k], input, st).len() > 0 && (forall|j: int|
        0 <= j < k ==> #[trigger] match_expr(items[j], input, st).len() == 0) {
        lemma_choice_commits(items, input, st, k);
    }
    if forall|j: int| 0 <= j < items.len() ==> #[trigger] match_expr(items[j], input, st).len() == 0 {
        lemma_choice_none(items, input, st);
    }
}

/// The states of `nexts` at another position than `st`, in order.
pub open spec fn moved_on(nexts: Seq<SpecState>, st: SpecState) -> Seq<SpecState>
    decreases nexts.len(),
{
    if nexts.len() == 0 {
        Seq::empty()
    } else {
        (if nexts[0].pos != st.pos {
            seq![nexts[0]]
        } else {
            Seq::empty()
        }) + moved_on(nexts.drop_first(), st)
    }
}

proof fn lemma_optional_each(inner: SpecExpression, input: Seq<char>, st: SpecState, nexts: Seq<SpecState>)
    requires
        states_within(nexts, st.pos, input, false),
    ensures
        repeat_each(inner, 0, Some(1usize), input, st, 0, nexts) == moved_on(nexts, st),
    decreases nexts.len(),
{
    if nexts.len() > 0 {
        assert(st.pos <= nexts[0].pos <= input.len());
        assert(states_within(nexts.drop_first(), st.pos, input, false)) by {
            assert forall|i: int| 0 <= i < nexts.drop_first().len() implies st.pos
                <= #[trigger] nexts.drop_first()[i].pos <= input.len() by {
                assert(nexts.drop_first()[i] == nexts[i + 1]);
                assert(st.pos <= nexts[i + 1].pos <= input.len());
            }
        }
        lemma_optional_each(inner, input, st, nexts.drop_first());
        let head = if st.pos < nexts[0].pos <= input.len() {
            match_repeat(inner, 0, Some(1usize), input, nexts[0], 1)
        } else {
            Seq::empty()
        };
        assert(repeat_each(inner, 0, Some(1usize), input, st, 0, nexts) == head + repeat_each(
            inner,
            0,
            Some(1usize),
            input,
            st,
            0,
            nexts.drop_first(),
        ));
        if nexts[0].pos != st.pos {
            let m = match_repeat(inner, 0, Some(1usize), input, nexts[0], 1);
            assert(m =~= seq![nexts[0]]);
            assert(head == seq![nexts[0]]);
        } else {
            assert(head =~= Seq::<SpecState>::empty());
        }
        assert(moved_on(nexts, st) == (if nexts[0].pos != st.pos {
            seq![nexts[0]]
        } else {
            Seq::<SpecState>::empty()
        }) + moved_on(nexts.drop_first(), st));
    } else {
        assert(repeat_each(inner, 0, Some(1usize), input, st, 0, nexts) =~= Seq::<SpecState>::empty());
    }
}

/// The optional `x?` is greedy: it first reaches every state of `x` that moved
/// forward, in order, and only then stays where it is.
pub proof fn law_optional(x: SpecExpression, input: Seq<char>, st: SpecState)
    requires
        st.pos <= input.len(),
    ensures
        match_expr(SpecExpression::Repeat { expression: Box::new(x), min: 0, max: Some(1) }, input, st)
            == moved_on(match_expr(x, input, st), st) + seq![st],
{
    let nexts = match_expr(x, input, st);
    lemma_match_expr_within(x, input, st, false);
    lemma_optional_each(x, input, st, nexts);
    assert(match_repeat(x, 0, Some(1usize), input, st, 0) == repeat_each(x, 0, Some(1usize), input, st, 0, nexts)
        + seq![st]);
}

/// A repetition gives up all its rounds last: its last state is where it started
/// exactly when it may make no round at all.
pub proof fn law_repeat_zero_rounds_last(x: SpecExpression, min: usize, max: Option<usize>, input: Seq<char>, st: SpecState)
    requires
        st.pos <= input.len(),
    ensures
        ({
            let r = match_expr(SpecExpression::Repeat { expression: Box::new(x), min, max }, input, st);
            min == 0 ==> r.len() > 0 && r.last() == st
        }),
{
    let r = match_repeat(x, min, max, input, st, 0);
    let a = if max is None || 0 < max->0 {
        repeat_each(x, min, max, input, st, 0, match_expr(x, input, st))
    } else {
        Seq::<SpecState>::empty()
    };
    if min == 0 {
        assert(r == a + seq![st]);
        assert((a + seq![st]).last() == st);
    }
}

/// A whole match is the first state, in order of preference, that ends at the
/// end of the input; there is none when no state does.
pub proof fn law_full_match_first(e: SpecExpression, input: Seq<char>)
    ensures
        ({
            let states = match_expr(e, input, initial_state(0));
            match full_match(e, input) {
                Some(st) => exists|i: int|
                    0 <= i < states.len() && states[i] == st && st.pos == input.len() && forall|j: int|
                        0 <= j < i ==> #[trigger] states[j].pos != input.len(),
                None => forall|j: int| 0 <= j < states.len() ==> #[trigger] states[j].pos != input.len(),
            }
        }),
{
    lemma_first_at_least(match_expr(e, input, initial_state(0)), input.len());
}

proof fn lemma_first_at_least(states: Seq<SpecState>, pos: nat)
    ensures
        match first_at(states, pos) {
            Some(st) => exists|i: int|
                0 <= i < states.len() && states[i] == st && st.pos == pos && forall|j: int|
                    0 <= j < i ==> #[trigger] states[j].pos != pos,
            None => forall|j: int| 0 <= j < states.len() ==> #[trigger] states[j].pos != pos,
        },
    decreases states.len(),
{
    if states.len() > 0 {
        let rest = states.drop_first();
        lemma_first_at_least(rest, pos);
        if states[0].pos == pos {
            assert(states[0] == states[0]);
        } else {
            match first_at(rest, pos) {
                Some(st) => {
                    let i = choose|i: int|
                        0 <= i < rest.len() && rest[i] == st && st.pos == pos && forall|j: int|
                            0 <= j < i ==> #[trigger] rest[j].pos != pos;
                    assert(states[i + 1] == st);
                    assert forall|j: int| 0 <= j < i + 1 implies #[trigger] states[j].pos != pos by {
                        if j > 0 {
                            assert(states[j] == rest[j - 1]);
                        }
                    }
                },
                None => {
                    assert forall|j: int| 0 <= j < states.len() implies #[trigger] states[j].pos != pos by {
                        if j > 0 {
                            assert(states[j] == rest[j - 1]);
                        }
                    }
                },
            }
        }
    }
}

/// The text that a capture of `name` holds in `caps`, or nothing.
pub open spec fn captured_or_nothing(caps: CaptureList, name: Seq<char>) -> Seq<char> {
    match capture_lookup(caps, name) {
        Some(v) => v,
        None => Seq::empty(),
    }
}

/// A braced reference `${name}` renders the text captured under `name` (nothing
/// when there is none), and the template goes on after the `}`.
pub proof fn law_render_braced(name: Seq<char>, rest: Seq<char>, text: Seq<char>, caps: CaptureList)
    requires
        forall|i: int| 0 <= i < name.len() ==> name[i] != '}',
    ensures
        render(seq!['$', '{'] + name + seq!['}'] + rest, text, caps) == captured_or_nothing(caps, name)
            + render(rest, text, caps),
{
    let t = seq!['$', '{'] + name + seq!['}'] + rest;
    let inner = t.skip(2);
    assert(inner =~= name + seq!['}'] + rest);
    assert(t[0] == '$' && t[1] == '{');
    assert forall|k: int| 0 <= k < name.len() implies #[trigger] inner[k] != '}' by {
        assert(inner[k] == name[k]);
    }
    assert(inner[name.len() as int] == '}');
    lemma_brace_run_is(inner, name.len() as int);
    assert(inner.take(name.len() as int) =~= name);
    assert(inner.skip(name.len() + 1int) =~= rest);
}

/// `$0` renders the whole matched text.
pub proof fn law_render_whole(rest: Seq<char>, text: Seq<char>, caps: CaptureList)
    ensures
        render(seq!['$', '0'] + rest, text, caps) == text + render(rest, text, caps),
{
    let t = seq!['$', '0'] + rest;
    assert(t[0] == '$' && t[1] == '0');
    assert(t.skip(2) =~= rest);
}

/// `$$` renders one `$`.
pub proof fn law_render_dollar(rest: Seq<char>, text: Seq<char>, caps: CaptureList)
    ensures
        render(seq!['$', '$'] + rest, text, caps) == seq!['$'] + render(rest, text, caps),
{
    let t = seq!['$', '$'] + rest;
    assert(t[0] == '$' && t[1] == '$');
    assert(t.skip(2) =~= rest);
}

/// A character other than `$` renders as itself.
pub proof fn law_render_char(c: char, rest: Seq<char>, text: Seq<char>, caps: CaptureList)
    requires
        c != '$',
    ensures
        render(seq![c] + rest, text, caps) == seq![c] + render(rest, text, caps),
{
    let t = seq![c] + rest;
    assert(t[0] == c);
    assert(t.drop_first() =~= rest);
}

/// A bare reference `$name` takes the longest name after the `$` and renders
/// the text captured under it (nothing when there is none).
pub proof fn law_render_named(name: Seq<char>, rest: Seq<char>, text: Seq<char>, caps: CaptureList)
    requires
        name.len() > 0,
        identifier_start(name[0]),
        forall|i: int| 0 <= i < name.len() ==> identifier_continue(#[trigger] name[i]),
        rest.len() > 0 ==> !identifier_continue(rest[0]),
    ensures
        render(seq!['$'] + name + rest, text, caps) == captured_or_nothing(caps, name) + render(
            rest,
            text,
            caps,
        ),
{
    let t = seq!['$'] + name + rest;
    let after = t.skip(1);
    assert(after =~= name + rest);
    assert(t[0] == '$' && t[1] == name[0]);
    assert(t[1] != '$' && t[1] != '0' && t[1] != '{');
    assert forall|k: int| 0 <= k < name.len() implies identifier_continue(#[trigger] after[k]) by {
        assert(after[k] == name[k]);
    }
    if rest.len() > 0 {
        assert(after[name.len() as int] == rest[0]);
    }
    lemma_identifier_run_is(after, name.len() as int);
    assert(t.subrange(1, 1 + name.len() as int) =~= name);
    assert(t.skip(1 + name.len() as int) =~= rest);
}

proof fn lemma_rules_in_order_from(rules: Seq<SpecRule>, text: Seq<char>, i: nat)
    ensures
        match first_applicable(rules, text, i) {
            Some((k, s, st)) => {
                &&& i <= k < rules.len()
                &&& find_at(rules[k as int].0, text, 0) == Some((s, st))
                &&& forall|j: int| i <= j < k ==> #[trigger] find_at(rules[j].0, text, 0) is None
            },
            None => forall|j: int| i <= j < rules.len() ==> #[trigger] find_at(rules[j].0, text, 0) is None,
        },
    decreases rules.len() - i,
{
    if i < rules.len() && find_at(rules[i as int].0, text, 0) is None {
        lemma_rules_in_order_from(rules, text, i + 1);
    }
}

/// Rules are tried in order: the rule that applies is the first one that
/// matches anywhere in the text, applied at its leftmost match; every rule
/// before it matches nowhere. When none applies, no rule matches.
pub proof fn law_rules_in_order(rules: Seq<SpecRule>, text: Seq<char>)
    ensures
        match first_applicable(rules, text, 0) {
            Some((k, s, st)) => {
                &&& k < rules.len()
                &&& find_at(rules[k as int].0, text, 0) == Some((s, st))
                &&& forall|j: int| 0 <= j < k ==> #[trigger] find_at(rules[j].0, text, 0) is None
            },
            None => forall|j: int| 0 <= j < rules.len() ==> #[trigger] find_at(rules[j].0, text, 0) is None,
        },
{
    lemma_rules_in_order_from(rules, text, 0);
}

/// A capture `{name:body}` holds a whole choice: where the choice that starts
/// after the `:` ends at a `}`, the capture is that name over that choice, and
/// ends after the `}`.
pub proof fn law_capture_body_is_choice(p: Seq<char>, pos: int, n: int)
    requires
        0 <= pos,
        0 < n,
        pos + n < p.len(),
        identifier_start(p[pos]),
        forall|i: int| pos <= i < pos + n ==> identifier_continue(#[trigger] p[i]),
        p[pos + n] == ':',
        sp_choice(p, pos + n + 1) is Ok,
        ({
            let end = sp_choice(p, pos + n + 1)->Ok_0.1;
            0 <= end < p.len() && p[end] == '}'
        }),
    ensures
        ({
            let (x, end) = sp_choice(p, pos + n + 1)->Ok_0;
            sp_capture(p, pos) == Ok::<(SpecExpression, int), (Seq<char>, int)>(
                (SpecExpression::Capture { name: p.subrange(pos, pos + n), expression: Box::new(x) }, end + 1),
            )
        }),
{
    let after = p.skip(pos + 1);
    assert forall|k: int| 0 <= k < n - 1 implies identifier_continue(#[trigger] after[k]) by {
        assert(after[k] == p[pos + 1 + k]);
    }
    assert(after[n - 1] == p[pos + n]);
    assert(!identifier_continue(':'));
    lemma_identifier_run_is(after, n - 1);
}

/// A group `( choice )` stands for the choice inside it.
pub proof fn law_group_is_choice(p: Seq<char>, pos: int)
    requires
        0 <= pos < p.len(),
        p[pos] == '(',
        sp_choice(p, pos + 1) is Ok,
        ({
            let end = sp_choice(p, pos + 1)->Ok_0.1;
            0 <= end < p.len() && p[end] == ')'
        }),
    ensures
        ({
            let (x, end) = sp_choice(p, pos + 1)->Ok_0;
            sp_atom(p, pos) == Ok::<(SpecExpression, int), (Seq<char>, int)>((x, end + 1))
        }),
{
}

/// After an atom, `*` repeats it any number of times, `+` at least once and
/// `?` at most once; with none of them the atom stands alone.
pub proof fn law_quantifiers(p: Seq<char>, pos: int)
    requires
        0 <= pos <= p.len(),
        sp_atom(p, pos) is Ok,
    ensures
        ({
            let (a, end) = sp_atom(p, pos)->Ok_0;
            let next = if end < p.len() {
                Some(p[end])
            } else {
                None::<char>
            };
            &&& next == Some('*') ==> sp_quantified(p, pos) == Ok::<(SpecExpression, int), (Seq<char>, int)>(
                (SpecExpression::Repeat { expression: Box::new(a), min: 0, max: None }, end + 1),
            )
            &&& next == Some('+') ==> sp_quantified(p, pos) == Ok::<(SpecExpression, int), (Seq<char>, int)>(
                (SpecExpression::Repeat { expression: Box::new(a), min: 1, max: None }, end + 1),
            )
            &&& next == Some('?') ==> sp_quantified(p, pos) == Ok::<(SpecExpression, int), (Seq<char>, int)>(
                (SpecExpression::Repeat { expression: Box::new(a), min: 0, max: Some(1) }, end + 1),
            )
            &&& next != Some('*') && next != Some('+') && next != Some('?') ==> sp_quantified(p, pos) == Ok::<
                (SpecExpression, int),
                (Seq<char>, int),
            >((a, end))
        }),
{
    lemma_atom_within(p, pos);
}

/// A backslash makes the next character literal: `\n`, `\r` and `\t` stand for
/// a newline, a carriage return and a tab, any other character for itself; a
/// backslash at the end of the pattern is an error.
pub proof fn law_escape(p: Seq<char>, pos: int)
    requires
        0 <= pos < p.len(),
        p[pos] == '\\',
    ensures
        pos + 1 == p.len() ==> sp_atom(p, pos) == Err::<(SpecExpression, int), (Seq<char>, int)>(
            ("unterminated escape sequence"@, pos + 1),
        ),
        pos + 1 < p.len() ==> sp_atom(p, pos) == Ok::<(SpecExpression, int), (Seq<char>, int)>(
            (
                SpecExpression::Literal(
                    if p[pos + 1] == 'n' {
                        '\n'
                    } else if p[pos + 1] == 'r' {
                        '\r'
                    } else if p[pos + 1] == 't' {
                        '\t'
                    } else {
                        p[pos + 1]
                    },
                ),
                pos + 2,
            ),
        ),
{
}

/// A class `[lo-hi]` admits the range from `lo` to `hi`.
pub proof fn law_class_range(p: Seq<char>, pos: int, lo: char, hi: char)
    requires
        0 <= pos,
        pos + 4 < p.len(),
        p[pos] == '[',
        p[pos + 1] == lo,
        p[pos + 2] == '-',
        p[pos + 3] == hi,
        p[pos + 4] == ']',
        lo != '^' && lo != '\\' && lo != ']',
        hi != '\\' && hi != ']',
    ensures
        sp_atom(p, pos) == Ok::<(SpecExpression, int), (Seq<char>, int)>(
            (SpecExpression::Class { ranges: seq![(lo, hi)], inverted: false }, pos + 5),
        ),
{
    let one = Seq::<(char, char)>::empty().push((lo, hi));
    assert(seq![(lo, hi)] =~= one);
    assert(sp_class_char(p, pos + 1) == Ok::<(char, int), (Seq<char>, int)>((lo, pos + 2)));
    assert(sp_class_char(p, pos + 3) == Ok::<(char, int), (Seq<char>, int)>((hi, pos + 4)));
    assert(sp_class_items(p, pos + 4, one) == Ok::<(Seq<(char, char)>, int), (Seq<char>, int)>((one, pos + 5)));
    assert(sp_class_items(p, pos + 1, Seq::empty()) == sp_class_items(p, pos + 4, one));
}

/// A class `[^c]` admits every character but `c`.
pub proof fn law_class_inverted(p: Seq<char>, pos: int, c: char)
    requires
        0 <= pos,
        pos + 3 < p.len(),
        p[pos] == '[',
        p[pos + 1] == '^',
        p[pos + 2] == c,
        p[pos + 3] == ']',
        c != '\\' && c != ']',
    ensures
        sp_atom(p, pos) == Ok::<(SpecExpression, int), (Seq<char>, int)>(
            (SpecExpression::Class { ranges: seq![(c, c)], inverted: true }, pos + 4),
        ),
{
    let one = Seq::<(char, char)>::empty().push((c, c));
    assert(seq![(c, c)] =~= one);
    assert(sp_class_char(p, pos + 2) == Ok::<(char, int), (Seq<char>, int)>((c, pos + 3)));
    assert(sp_class_items(p, pos + 3, one) == Ok::<(Seq<(char, char)>, int), (Seq<char>, int)>((one, pos + 4)));
    assert(sp_class_items(p, pos + 2, Seq::empty()) == sp_class_items(p, pos + 3, one));
}

/// `|` between two sequences makes an ordered choice of the two, in the order
/// written; a sequence with no `|` after it stands alone.
pub proof fn law_choice_of_sequences(p: Seq<char>, pos: int)
    requires
        0 <= pos <= p.len(),
        sp_sequence(p, pos) is Ok,
    ensures
        ({
            let (a, m) = sp_sequence(p, pos)->Ok_0;
            &&& !(m < p.len() && p[m] == '|') ==> sp_choice(p, pos) == Ok::<
                (SpecExpression, int),
                (Seq<char>, int),
            >((a, m))
            &&& m < p.len() && p[m] == '|' && sp_sequence(p, m + 1) is Ok && !(sp_sequence(p, m + 1)->Ok_0.1
                < p.len() && p[sp_sequence(p, m + 1)->Ok_0.1] == '|') ==> sp_choice(p, pos) == Ok::<
                (SpecExpression, int),
                (Seq<char>, int),
            >((SpecExpression::Choice(seq![a, sp_sequence(p, m + 1)->Ok_0.0]), sp_sequence(p, m + 1)->Ok_0.1))
        }),
{
    lemma_sequence_within(p, pos);
    let (a, m) = sp_sequence(p, pos)->Ok_0;
    if m < p.len() && p[m] == '|' && sp_sequence(p, m + 1) is Ok {
        lemma_sequence_within(p, m + 1);
        let (b, end) = sp_sequence(p, m + 1)->Ok_0;
        assert(seq![a].push(b) =~= seq![a, b]);
    }
}

/// An unclosed `${` stands for itself, with the rest of the template.
pub proof fn law_render_unclosed(name: Seq<char>, text: Seq<char>, caps: CaptureList)
    requires
        forall|i: int| 0 <= i < name.len() ==> name[i] != '}',
    ensures
        render(seq!['$', '{'] + name, text, caps) == seq!['$', '{'] + name,
{
    let t = seq!['$', '{'] + name;
    assert(t.skip(2) =~= name);
    assert(t[0] == '$' && t[1] == '{');
    lemma_brace_run_is(name, name.len() as int);
}

/// Rewriting a match by `$0` gives the text back unchanged.
pub proof fn law_apply_whole_match(text: Seq<char>, start: nat, st: SpecState)
    requires
        start <= st.pos <= text.len(),
    ensures
        apply_match(text, seq!['$', '0'], start, st) == text,
{
    let whole = text.subrange(start as int, st.pos as int);
    law_render_whole(Seq::empty(), whole, st.caps);
    assert(seq!['$', '0'] + Seq::<char>::empty() =~= seq!['$', '0']);
    assert(render(Seq::<char>::empty(), whole, st.caps) =~= Seq::<char>::empty());
    assert(text.take(start as int) + whole + text.skip(st.pos as int) =~= text);
}

/// Where the repeated expression matches nothing, a repetition stays where it
/// is when it may make no round, and matches nothing otherwise.
pub proof fn law_repeat_without_rounds(x: SpecExpression, min: usize, max: Option<usize>, input: Seq<char>, st: SpecState)
    requires
        match_expr(x, input, st).len() == 0,
    ensures
        match_expr(SpecExpression::Repeat { expression: Box::new(x), min, max }, input, st) == (if min == 0 {
            seq![st]
        } else {
            Seq::<SpecState>::empty()
        }),
{
    assert(repeat_each(x, min, max, input, st, 0, match_expr(x, input, st)) =~= Seq::<SpecState>::empty());
    let a = if max is None || 0 < max->0 {
        repeat_each(x, min, max, input, st, 0, match_expr(x, input, st))
    } else {
        Seq::<SpecState>::empty()
    };
    assert(a =~= Seq::<SpecState>::empty());
    if min == 0 {
        assert(match_repeat(x, min, max, input, st, 0) =~= seq![st]);
    } else {
        assert(match_repeat(x, min, max, input, st, 0) =~= Seq::<SpecState>::empty());
    }
}

proof fn lemma_then_each_reaches(y: SpecExpression, input: Seq<char>, a: Seq<SpecState>, i: int, j: int)
    requires
        0 <= i < a.len(),
        0 <= j < match_expr(y, input, a[i]).len(),
    ensures
        match_all(y, input, a).contains(match_expr(y, input, a[i])[j]),
    decreases a.len(),
{
    let head = match_expr(y, input, a[0]);
    let tail = match_all(y, input, a.drop_first());
    assert(match_all(y, input, a) == head + tail);
    if i == 0 {
        assert((head + tail)[j] == head[j]);
    } else {
        assert(a.drop_first()[i - 1] == a[i]);
        lemma_then_each_reaches(y, input, a.drop_first(), i - 1, j);
        let k = choose|k: int| 0 <= k < tail.len() && tail[k] == match_expr(y, input, a[i])[j];
        assert((head + tail)[head.len() + k] == tail[k]);
    }
}

proof fn lemma_then_each_origin(y: SpecExpression, input: Seq<char>, a: Seq<SpecState>, k: int)
    requires
        0 <= k < match_all(y, input, a).len(),
    ensures
        exists|i: int| 0 <= i < a.len() && #[trigger] match_expr(y, input, a[i]).contains(match_all(y, input, a)[k]),
    decreases a.len(),
{
    let head = match_expr(y, input, a[0]);
    let tail = match_all(y, input, a.drop_first());
    assert(match_all(y, input, a) == head + tail);
    if k < head.len() {
        assert(head[k] == match_all(y, input, a)[k]);
        assert(head.contains(match_all(y, input, a)[k]));
    } else {
        lemma_then_each_origin(y, input, a.drop_first(), k - head.len());
        assert(tail[k - head.len()] == match_all(y, input, a)[k]);
        let i = choose|i: int|
            0 <= i < a.drop_first().len() && #[trigger] match_expr(y, input, a.drop_first()[i]).contains(
                tail[k - head.len()],
            );
        assert(a.drop_first()[i] == a[i + 1]);
    }
}

/// `t` is a state that `y` reaches from one of `starts`.
pub open spec fn reached_through(y: SpecExpression, input: Seq<char>, starts: Seq<SpecState>, t: SpecState) -> bool {
    exists|i: int| 0 <= i < starts.len() && #[trigger] match_expr(y, input, starts[i]).contains(t)
}

/// The sequence of `x` then `y`.
pub open spec fn sequence_of_two(x: SpecExpression, y: SpecExpression) -> SpecExpression {
    SpecExpression::Sequence(seq![x, y])
}

/// A sequence `x y` tries every way: it reaches every state that `y` reaches
/// from any state of `x`, and nothing else; the ways through the first state of
/// `x` come first.
pub proof fn law_sequence_pair(x: SpecExpression, y: SpecExpression, input: Seq<char>, st: SpecState)
    ensures
        ({
            let r = match_expr(sequence_of_two(x, y), input, st);
            let a = match_expr(x, input, st);
            &&& forall|i: int, j: int|
                0 <= i < a.len() && 0 <= j < match_expr(y, input, a[i]).len() ==> r.contains(
                    #[trigger] match_expr(y, input, a[i])[j],
                )
            &&& forall|k: int| 0 <= k < r.len() ==> #[trigger] reached_through(y, input, a, r[k])
            &&& a.len() > 0 ==> r.take(match_expr(y, input, a[0]).len() as int) == match_expr(y, input, a[0])
        }),
{
    let items = seq![x, y];
    let a = match_expr(x, input, st);
    assert(match_all(x, input, seq![st]) =~= a) by {
        assert(seq![st].drop_first() =~= Seq::<SpecState>::empty());
        assert(match_all(x, input, Seq::<SpecState>::empty()) =~= Seq::<SpecState>::empty());
    }
    assert(items.drop_first() =~= seq![y]);
    assert(seq![y].drop_first() =~= Seq::<SpecExpression>::empty());
    let m = match_all(y, input, a);
    assert(items[0] == x && seq![y][0] == y);
    assert(match_seq(items, input, seq![st]) == match_seq(seq![y], input, a));
    assert(match_seq(seq![y], input, a) == match_seq(Seq::<SpecExpression>::empty(), input, m));
    let r = match_expr(sequence_of_two(x, y), input, st);
    assert(r == m);
    assert forall|i: int, j: int| 0 <= i < a.len() && 0 <= j < match_expr(y, input, a[i]).len() implies r.contains(
        #[trigger] match_expr(y, input, a[i])[j],
    ) by {
        lemma_then_each_reaches(y, input, a, i, j);
    }
    assert forall|k: int| 0 <= k < r.len() implies #[trigger] reached_through(y, input, a, r[k]) by {
        lemma_then_each_origin(y, input, a, k);
        let i = choose|i: int| 0 <= i < a.len() && #[trigger] match_expr(y, input, a[i]).contains(m[k]);
        assert(match_expr(y, input, a[i]).contains(r[k]));
    }
    if a.len() > 0 {
        let head = match_expr(y, input, a[0]);
        assert(m == head + match_all(y, input, a.drop_first()));
        assert(r.take(head.len() as int) =~= head);
    }
}

/// Where a search goes on after the match `m`: where the match ended, or one
/// character further when it was empty.
pub open spec fn resume_after(m: (nat, SpecState)) -> nat {
    if m.1.pos == m.0 {
        m.0 + 1
    } else {
        m.1.pos
    }
}

/// A search is a chain of leftmost matches: the first is the leftmost match
/// from where the search starts, each next one is the leftmost match from
/// where the previous one ended (one character further after an empty match),
/// and after the last one there is no further match.
pub proof fn law_search_chain(e: SpecExpression, input: Seq<char>, cursor: nat)
    ensures
        ({
            let all = find_all_from(e, input, cursor);
            &&& all.len() == 0 <==> find_at(e, input, cursor) is None
            &&& all.len() > 0 ==> Some(all[0]) == find_at(e, input, cursor)
            &&& forall|i: int| 0 <= i < all.len() - 1 ==> Some(all[i + 1]) == find_at(e, input, resume_after(#[trigger] all[i]))
            &&& all.len() > 0 ==> find_at(e, input, resume_after(all.last())) is None
        }),
    decreases input.len() + 1 - cursor,
{
    let all = find_all_from(e, input, cursor);
    if cursor <= input.len() {
        lemma_find_at_within(e, input, cursor);
        match find_at(e, input, cursor) {
            None => {},
            Some((s, st)) => {
                let next = resume_after((s, st));
                let rest = if st.pos == s && s == input.len() {
                    Seq::<(nat, SpecState)>::empty()
                } else {
                    find_all_from(e, input, next)
                };
                assert(all == seq![(s, st)] + rest);
                if st.pos == s && s == input.len() {
                    assert(next > input.len());
                    assert(all.last() == (s, st));
                } else {
                    law_search_chain(e, input, next);
                    assert forall|i: int| 0 <= i < all.len() - 1 implies Some(all[i + 1]) == find_at(
                        e,
                        input,
                        resume_after(#[trigger] all[i]),
                    ) by {
                        assert(all[i + 1] == rest[i]);
                        if i > 0 {
                            assert(all[i] == rest[i - 1]);
                        }
                    }
                    if rest.len() > 0 {
                        assert(all.last() == rest.last());
                    } else {
                        assert(all.last() == (s, st));
                    }
                }
            },
        }
    }
}

/// Whether `c` closes a sequence: `)`, `}` or `|`.
pub open spec fn closes_sequence(c: char) -> bool {
    c == ')' || c == '}' || c == '|'
}

/// Whether a sequence ends at `pos`: at the end of the pattern or before a
/// character that closes it.
pub open spec fn sequence_ends_at(p: Seq<char>, pos: int) -> bool {
    pos >= p.len() || closes_sequence(p[pos])
}

/// A sequence reads quantified atoms in the order written: nothing makes the
/// empty expression, one atom stands for itself, and two make a sequence of
/// the two.
pub proof fn law_sequence_of_atoms(p: Seq<char>, pos: int)
    requires
        0 <= pos <= p.len(),
    ensures
        sequence_ends_at(p, pos) ==> sp_sequence(p, pos) == Ok::<(SpecExpression, int), (Seq<char>, int)>(
            (SpecExpression::Empty, pos),
        ),
        !sequence_ends_at(p, pos) && sp_quantified(p, pos) is Ok && sequence_ends_at(p, sp_quantified(p, pos)->Ok_0.1)
            ==> sp_sequence(p, pos) == sp_quantified(p, pos),
        ({
            let (a, m) = sp_quantified(p, pos)->Ok_0;
            let (b, end) = sp_quantified(p, m)->Ok_0;
            !sequence_ends_at(p, pos) && sp_quantified(p, pos) is Ok && !sequence_ends_at(p, m) && sp_quantified(p, m) is Ok
                && sequence_ends_at(p, end) ==> sp_sequence(p, pos) == Ok::<
                (SpecExpression, int),
                (Seq<char>, int),
            >((SpecExpression::Sequence(seq![a, b]), end))
        }),
{
    let empty = Seq::<SpecExpression>::empty();
    if !sequence_ends_at(p, pos) && sp_quantified(p, pos) is Ok {
        lemma_atom_within(p, pos);
        let (a, m) = sp_quantified(p, pos)->Ok_0;
        assert(pos < m <= p.len());
        assert(empty.push(a) =~= seq![a]);
        if sequence_ends_at(p, m) {
            assert(sp_seq_items(p, m, seq![a]) == Ok::<(Seq<SpecExpression>, int), (Seq<char>, int)>((seq![a], m)));
            assert(sp_seq_items(p, pos, empty) == sp_seq_items(p, m, seq![a]));
        } else if sp_quantified(p, m) is Ok {
            lemma_atom_within(p, m);
            let (b, end) = sp_quantified(p, m)->Ok_0;
            assert(m < end <= p.len());
            assert(seq![a].push(b) =~= seq![a, b]);
            if sequence_ends_at(p, end) {
                assert(sp_seq_items(p, end, seq![a, b]) == Ok::<(Seq<SpecExpression>, int), (Seq<char>, int)>(
                    (seq![a, b], end),
                ));
                assert(sp_seq_items(p, m, seq![a]) == sp_seq_items(p, end, seq![a, b]));
                assert(sp_seq_items(p, pos, empty) == sp_seq_items(p, m, seq![a]));
            }
        }
    }
}

/// A pattern denotes the choice that spans all of it; a choice that stops
/// early leaves an unexpected token where it stopped.
pub proof fn law_whole_pattern(p: Seq<char>)
    ensures
        sp_choice(p, 0) matches Ok((x, end)) ==> (if end < p.len() {
            parse_spec(p) == Err::<SpecExpression, (Seq<char>, int)>(("unexpected token"@, end))
        } else {
            parse_spec(p) == Ok::<SpecExpression, (Seq<char>, int)>(x)
        }),
        sp_choice(p, 0) matches Err(e) ==> parse_spec(p) == Err::<SpecExpression, (Seq<char>, int)>(e),
{
}

/// Whether some rule of `rules` matches somewhere in `text`.
pub open spec fn some_rule_matches(rules: Seq<SpecRule>, text: Seq<char>) -> bool {
    exists|j: int| 0 <= j < rules.len() && #[trigger] find_at(rules[j].0, text, 0) is Some
}

/// Rewriting stops for one of three reasons: a terminal rule applied; no rule
/// matches anywhere in the output any more; or the budget is spent. The budget
/// is reported as reached exactly when it was spent, positive, not ended by a
/// terminal rule, and some rule still matches the output.
pub proof fn law_rewrite_stops(r: RewriteResult, rules: Seq<SpecRule>, input: Seq<char>, max_steps: nat)
    requires
        rewrite_outcome(r, rules, input, max_steps),
    ensures
        r.max_steps_reached <==> (!r.terminated && r.steps == max_steps && max_steps > 0 && some_rule_matches(
            rules,
            r.output@,
        )),
        !r.terminated && r.steps < max_steps ==> !some_rule_matches(rules, r.output@),
{
    lemma_rewrite_outcome(r, rules, input, max_steps);
    lemma_rewrite_run(rules, input, 0, max_steps);
    lemma_rules_in_order_from(rules, r.output@, 0);
    if first_applicable(rules, r.output@, 0) is Some {
        let (k, s, st) = first_applicable(rules, r.output@, 0)->Some_0;
        assert(find_at(rules[k as int].0, r.output@, 0) is Some);
    }
}

} // verus!
