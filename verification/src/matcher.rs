//! The matching engine: the ordered, backtracking semantics of expressions, and
//! the executable matcher proved to follow it.
//!
//! Positions are character indices into the input.
use vstd::prelude::*;
use crate::captures::{
    CaptureList, capture_insert, capture_lookup, captures_sorted, captures_view, insert_capture,
    lemma_capture_insert_lookup, lemma_capture_insert_sorted,
};
use crate::expression::{Expression, SpecExpression, class_contains, lemma_exprs_view};
use crate::text::chars_of;

verus! {

/// A point reached while matching: the input position and the captures so far.
pub struct SpecState {
    pub pos: nat,
    pub caps: CaptureList,
}

/// The state at `pos` with no captures.
pub open spec fn initial_state(pos: nat) -> SpecState {
    SpecState { pos, caps: Seq::empty() }
}

/// The state `st` moved to `pos`.
pub open spec fn moved(st: SpecState, pos: nat) -> SpecState {
    SpecState { pos, caps: st.caps }
}

/// The single step over one character that `ok` admits, if the input has one at `st.pos`.
pub open spec fn step_if(input: Seq<char>, st: SpecState, ok: bool) -> Seq<SpecState> {
    if st.pos < input.len() && ok {
        seq![moved(st, st.pos + 1)]
    } else {
        Seq::empty()
    }
}

/// Records, in each state, the text from `start` to its position under `name`.
pub open spec fn capture_all(states: Seq<SpecState>, name: Seq<char>, input: Seq<char>, start: nat) -> Seq<SpecState> {
    states.map_values(
        |s: SpecState|
            SpecState {
                pos: s.pos,
                caps: capture_insert(s.caps, name, input.subrange(start as int, s.pos as int)),
            },
    )
}

/// Termination measure of repetitions: the characters left after `pos`, plus one.
pub open spec fn rest_measure(input: Seq<char>, pos: nat) -> int {
    if pos <= input.len() {
        input.len() - pos + 1
    } else {
        1
    }
}

/// All the states that `e` can reach from `st`, in order of preference: ordered
/// choice takes the first alternative that matches at all; a sequence tries
/// every way of matching each item in turn; repetition is greedy and tries
/// fewer rounds only afterwards.
pub open spec fn match_expr(e: SpecExpression, input: Seq<char>, st: SpecState) -> Seq<SpecState>
    decreases e, 0int, 0int, 0int,
{
    match e {
        SpecExpression::Empty => seq![st],
        SpecExpression::Literal(c) => step_if(input, st, st.pos < input.len() && input[st.pos as int] == c),
        SpecExpression::Any => step_if(input, st, true),
        SpecExpression::Class { ranges, inverted } => step_if(
            input,
            st,
            st.pos < input.len() && class_contains(ranges, inverted, input[st.pos as int]),
        ),
        SpecExpression::Sequence(items) => match_seq(items, input, seq![st]),
        SpecExpression::Choice(items) => match_choice(items, input, st),
        SpecExpression::Repeat { expression, min, max } => match_repeat(*expression, min, max, input, st, 0),
        SpecExpression::Capture { name, expression } => capture_all(
            match_expr(*expression, input, st),
            name,
            input,
            st.pos,
        ),
    }
}

/// The states reached by matching `items` one after the other from each of `states`.
pub open spec fn match_seq(items: Seq<SpecExpression>, input: Seq<char>, states: Seq<SpecState>) -> Seq<SpecState>
    decreases items, 0int, 0int, 0int,
{
    if items.len() == 0 {
        states
    } else {
        match_seq(items.drop_first(), input, match_all(items[0], input, states))
    }
}

/// The states reached by `e` from each of `states`, those from `states[0]` first.
pub open spec fn match_all(e: SpecExpression, input: Seq<char>, states: Seq<SpecState>) -> Seq<SpecState>
    decreases e, 0int, 1int, states.len(),
{
    if states.len() == 0 {
        Seq::empty()
    } else {
        match_expr(e, input, states[0]) + match_all(e, input, states.drop_first())
    }
}

/// The states of the first alternative that reaches any.
pub open spec fn match_choice(items: Seq<SpecExpression>, input: Seq<char>, st: SpecState) -> Seq<SpecState>
    decreases items, 0int, 0int, 0int,
{
    if items.len() == 0 {
        Seq::empty()
    } else if match_expr(items[0], input, st).len() > 0 {
        match_expr(items[0], input, st)
    } else {
        match_choice(items.drop_first(), input, st)
    }
}

/// The states of `inner` repeated from round `count` on: first every longer
/// repetition through each next state that moved forward, then `st` itself
/// once at least `min` rounds were made.
pub open spec fn match_repeat(
    inner: SpecExpression,
    min: usize,
    max: Option<usize>,
    input: Seq<char>,
    st: SpecState,
    count: nat,
) -> Seq<SpecState>
    decreases inner, rest_measure(input, st.pos), 2int, 0int,
{
    (if max is None || count < max->0 {
        repeat_each(inner, min, max, input, st, count, match_expr(inner, input, st))
    } else {
        Seq::empty()
    }) + (if count >= min {
        seq![st]
    } else {
        Seq::empty()
    })
}

/// The further repetitions through each of `nexts`, in order. Only the states
/// that moved forward go on; the states that matching reaches never lie before
/// `st` nor past the end (`lemma_match_expr_within`), so the bound on the
/// position only keeps this definition well founded.
pub open spec fn repeat_each(
    inner: SpecExpression,
    min: usize,
    max: Option<usize>,
    input: Seq<char>,
    st: SpecState,
    count: nat,
    nexts: Seq<SpecState>,
) -> Seq<SpecState>
    decreases inner, rest_measure(input, st.pos), 1int, nexts.len(),
{
    if nexts.len() == 0 {
        Seq::empty()
    } else {
        (if st.pos < nexts[0].pos <= input.len() {
            match_repeat(inner, min, max, input, nexts[0], count + 1)
        } else {
            Seq::empty()
        }) + repeat_each(inner, min, max, input, st, count, nexts.drop_first())
    }
}

/// Every state of `states` lies between `lo` and the end of the input, and has
/// its captures in name order when `sorted` asks for it.
pub open spec fn states_within(states: Seq<SpecState>, lo: nat, input: Seq<char>, sorted: bool) -> bool {
    forall|i: int|
        0 <= i < states.len() ==> lo <= #[trigger] states[i].pos <= input.len() && (sorted
            ==> captures_sorted(states[i].caps))
}

/// Matching never moves backwards nor past the end, and keeps the captures of a
/// state ordered by name, without repeated names.
pub proof fn lemma_match_expr_within(e: SpecExpression, input: Seq<char>, st: SpecState, sorted: bool)
    requires
        st.pos <= input.len(),
        sorted ==> captures_sorted(st.caps),
    ensures
        states_within(match_expr(e, input, st), st.pos, input, sorted),
    decreases e, 0int, 0int, 0int,
{
    match e {
        SpecExpression::Sequence(items) => {
            lemma_match_seq_within(items, input, seq![st], st.pos, sorted);
        },
        SpecExpression::Choice(items) => {
            lemma_match_choice_within(items, input, st, sorted);
        },
        SpecExpression::Repeat { expression, min, max } => {
            lemma_match_repeat_within(*expression, min, max, input, st, 0, sorted);
        },
        SpecExpression::Capture { name, expression } => {
            lemma_match_expr_within(*expression, input, st, sorted);
            let inner = match_expr(*expression, input, st);
            let r = capture_all(inner, name, input, st.pos);
            assert forall|i: int| 0 <= i < r.len() implies st.pos <= #[trigger] r[i].pos <= input.len() && (
            sorted ==> captures_sorted(r[i].caps)) by {
                assert(inner[i].pos == r[i].pos);
                if sorted {
                    lemma_capture_insert_sorted(
                        inner[i].caps,
                        name,
                        input.subrange(st.pos as int, inner[i].pos as int),
                    );
                }
            }
        },
        _ => {},
    }
}

/// Sequences keep their states within bounds.
pub proof fn lemma_match_seq_within(
    items: Seq<SpecExpression>,
    input: Seq<char>,
    states: Seq<SpecState>,
    lo: nat,
    sorted: bool,
)
    requires
        states_within(states, lo, input, sorted),
    ensures
        states_within(match_seq(items, input, states), lo, input, sorted),
    decreases items, 0int, 0int, 0int,
{
    if items.len() > 0 {
        lemma_match_all_within(items[0], input, states, lo, sorted);
        lemma_match_seq_within(items.drop_first(), input, match_all(items[0], input, states), lo, sorted);
    }
}

/// Matching from each of several states keeps within bounds.
pub proof fn lemma_match_all_within(
    e: SpecExpression,
    input: Seq<char>,
    states: Seq<SpecState>,
    lo: nat,
    sorted: bool,
)
    requires
        states_within(states, lo, input, sorted),
    ensures
        states_within(match_all(e, input, states), lo, input, sorted),
    decreases e, 0int, 1int, states.len(),
{
    if states.len() > 0 {
        assert(lo <= states[0].pos <= input.len());
        lemma_match_expr_within(e, input, states[0], sorted);
        assert(states_within(states.drop_first(), lo, input, sorted)) by {
            assert forall|i: int| 0 <= i < states.drop_first().len() implies lo
                <= #[trigger] states.drop_first()[i].pos <= input.len() && (sorted ==> captures_sorted(
                states.drop_first()[i].caps,
            )) by {
                assert(states.drop_first()[i] == states[i + 1]);
                assert(lo <= states[i + 1].pos <= input.len());
            }
        }
        lemma_match_all_within(e, input, states.drop_first(), lo, sorted);
        let a = match_expr(e, input, states[0]);
        let b = match_all(e, input, states.drop_first());
        assert forall|i: int| 0 <= i < (a + b).len() implies lo <= #[trigger] (a + b)[i].pos
            <= input.len() && (sorted ==> captures_sorted((a + b)[i].caps)) by {
            if i < a.len() {
                assert((a + b)[i] == a[i]);
                assert(states[0].pos <= a[i].pos <= input.len());
            } else {
                assert((a + b)[i] == b[i - a.len()]);
                assert(lo <= b[i - a.len()].pos <= input.len());
            }
        }
        assert(match_all(e, input, states) == a + b);
    }
}

/// Ordered choice keeps within bounds.
pub proof fn lemma_match_choice_within(items: Seq<SpecExpression>, input: Seq<char>, st: SpecState, sorted: bool)
    requires
        st.pos <= input.len(),
        sorted ==> captures_sorted(st.caps),
    ensures
        states_within(match_choice(items, input, st), st.pos, input, sorted),
    decreases items, 0int, 0int, 0int,
{
    if items.len() > 0 {
        lemma_match_expr_within(items[0], input, st, sorted);
        lemma_match_choice_within(items.drop_first(), input, st, sorted);
    }
}

/// Repetition keeps within bounds.
pub proof fn lemma_match_repeat_within(
    inner: SpecExpression,
    min: usize,
    max: Option<usize>,
    input: Seq<char>,
    st: SpecState,
    count: nat,
    sorted: bool,
)
    requires
        st.pos <= input.len(),
        sorted ==> captures_sorted(st.caps),
    ensures
        states_within(match_repeat(inner, min, max, input, st, count), st.pos, input, sorted),
    decreases inner, rest_measure(input, st.pos), 2int, 0int,
{
    let a = if max is None || count < max->0 {
        repeat_each(inner, min, max, input, st, count, match_expr(inner, input, st))
    } else {
        Seq::empty()
    };
    let b: Seq<SpecState> = if count >= min {
        seq![st]
    } else {
        Seq::empty()
    };
    if max is None || count < max->0 {
        lemma_match_expr_within(inner, input, st, sorted);
        lemma_repeat_each_within(inner, min, max, input, st, count, match_expr(inner, input, st), sorted);
    }
    assert forall|i: int| 0 <= i < (a + b).len() implies st.pos <= #[trigger] (a + b)[i].pos
        <= input.len() && (sorted ==> captures_sorted((a + b)[i].caps)) by {
        if i < a.len() {
            assert((a + b)[i] == a[i]);
        } else {
            assert((a + b)[i] == b[i - a.len()]);
        }
    }
    assert(match_repeat(inner, min, max, input, st, count) == a + b);
}

/// Further repetitions keep within bounds.
pub proof fn lemma_repeat_each_within(
    inner: SpecExpression,
    min: usize,
    max: Option<usize>,
    input: Seq<char>,
    st: SpecState,
    count: nat,
    nexts: Seq<SpecState>,
    sorted: bool,
)
    requires
        st.pos <= input.len(),
        states_within(nexts, st.pos, input, sorted),
    ensures
        states_within(repeat_each(inner, min, max, input, st, count, nexts), st.pos, input, sorted),
    decreases inner, rest_measure(input, st.pos), 1int, nexts.len(),
{
    if nexts.len() > 0 {
        let a = if st.pos < nexts[0].pos <= input.len() {
            match_repeat(inner, min, max, input, nexts[0], count + 1)
        } else {
            Seq::empty()
        };
        let b = repeat_each(inner, min, max, input, st, count, nexts.drop_first());
        assert(st.pos <= nexts[0].pos);
        if st.pos < nexts[0].pos <= input.len() {
            lemma_match_repeat_within(inner, min, max, input, nexts[0], count + 1, sorted);
        }
        assert(states_within(nexts.drop_first(), st.pos, input, sorted)) by {
            assert forall|i: int| 0 <= i < nexts.drop_first().len() implies st.pos
                <= #[trigger] nexts.drop_first()[i].pos <= input.len() && (sorted ==> captures_sorted(
                nexts.drop_first()[i].caps,
            )) by {
                assert(nexts.drop_first()[i] == nexts[i + 1]);
                assert(st.pos <= nexts[i + 1].pos <= input.len());
            }
        }
        lemma_repeat_each_within(inner, min, max, input, st, count, nexts.drop_first(), sorted);
        assert forall|i: int| 0 <= i < (a + b).len() implies st.pos <= #[trigger] (a + b)[i].pos
            <= input.len() && (sorted ==> captures_sorted((a + b)[i].caps)) by {
            if i < a.len() {
                assert((a + b)[i] == a[i]);
            } else {
                assert((a + b)[i] == b[i - a.len()]);
            }
        }
        assert(repeat_each(inner, min, max, input, st, count, nexts) == a + b);
    } else {
        assert(repeat_each(inner, min, max, input, st, count, nexts).len() == 0);
    }
}

/// The first state of `states` at `pos`, if any.
pub open spec fn first_at(states: Seq<SpecState>, pos: nat) -> Option<SpecState>
    decreases states.len(),
{
    if states.len() == 0 {
        None
    } else if states[0].pos == pos {
        Some(states[0])
    } else {
        first_at(states.drop_first(), pos)
    }
}

/// The preferred way for `e` to match the whole input, if there is one.
pub open spec fn full_match(e: SpecExpression, input: Seq<char>) -> Option<SpecState> {
    first_at(match_expr(e, input, initial_state(0)), input.len())
}

/// The leftmost match of `e` starting at or after `start`: its start, and the
/// first state that `e` reaches from there.
pub open spec fn find_at(e: SpecExpression, input: Seq<char>, start: nat) -> Option<(nat, SpecState)>
    decreases input.len() + 1 - start,
{
    if start > input.len() {
        None
    } else if match_expr(e, input, initial_state(start)).len() > 0 {
        Some((start, match_expr(e, input, initial_state(start))[0]))
    } else {
        find_at(e, input, start + 1)
    }
}

/// A found match starts no earlier than where the search started, and ends
/// after its start, within the input.
pub proof fn lemma_find_at_within(e: SpecExpression, input: Seq<char>, start: nat)
    ensures
        find_at(e, input, start) matches Some((s, st)) ==> start <= s <= st.pos <= input.len()
            && captures_sorted(st.caps),
    decreases input.len() + 1 - start,
{
    if start <= input.len() {
        lemma_match_expr_within(e, input, initial_state(start), true);
        if match_expr(e, input, initial_state(start)).len() == 0 {
            lemma_find_at_within(e, input, start + 1);
        }
    }
}

/// Every name captured in `base` is still captured in `caps`.
pub open spec fn names_kept(base: CaptureList, caps: CaptureList) -> bool {
    forall|name: Seq<char>|
        capture_lookup(base, name) is Some ==> #[trigger] capture_lookup(caps, name) is Some
}

/// Every state of `states` still captures every name captured in `base`.
pub open spec fn states_keep(states: Seq<SpecState>, base: CaptureList) -> bool {
    forall|i: int| 0 <= i < states.len() ==> names_kept(base, #[trigger] states[i].caps)
}

/// Matching never loses a capture: every state reached still captures every
/// name that the starting state captured.
pub proof fn lemma_match_expr_keeps_names(e: SpecExpression, input: Seq<char>, st: SpecState)
    ensures
        states_keep(match_expr(e, input, st), st.caps),
    decreases e, 0int, 0int, 0int,
{
    match e {
        SpecExpression::Sequence(items) => {
            lemma_match_seq_keeps_names(items, input, seq![st], st.caps);
        },
        SpecExpression::Choice(items) => {
            lemma_match_choice_keeps_names(items, input, st);
        },
        SpecExpression::Repeat { expression, min, max } => {
            lemma_match_repeat_keeps_names(*expression, min, max, input, st, 0);
        },
        SpecExpression::Capture { name, expression } => {
            lemma_match_expr_keeps_names(*expression, input, st);
            let inner = match_expr(*expression, input, st);
            let r = capture_all(inner, name, input, st.pos);
            assert forall|i: int| 0 <= i < r.len() implies names_kept(st.caps, #[trigger] r[i].caps) by {
                let text = input.subrange(st.pos as int, inner[i].pos as int);
                assert(r[i].caps == capture_insert(inner[i].caps, name, text));
                assert forall|other: Seq<char>| capture_lookup(st.caps, other) is Some implies #[trigger] capture_lookup(
                    r[i].caps,
                    other,
                ) is Some by {
                    lemma_capture_insert_lookup(inner[i].caps, name, text, other);
                    assert(names_kept(st.caps, inner[i].caps));
                }
            }
        },
        _ => {},
    }
}

/// Sequences keep the captured names of where they start.
pub proof fn lemma_match_seq_keeps_names(
    items: Seq<SpecExpression>,
    input: Seq<char>,
    states: Seq<SpecState>,
    base: CaptureList,
)
    requires
        states_keep(states, base),
    ensures
        states_keep(match_seq(items, input, states), base),
    decreases items, 0int, 0int, 0int,
{
    if items.len() > 0 {
        lemma_match_all_keeps_names(items[0], input, states, base);
        lemma_match_seq_keeps_names(items.drop_first(), input, match_all(items[0], input, states), base);
    }
}

/// Matching from each of several states keeps the captured names.
pub proof fn lemma_match_all_keeps_names(
    e: SpecExpression,
    input: Seq<char>,
    states: Seq<SpecState>,
    base: CaptureList,
)
    requires
        states_keep(states, base),
    ensures
        states_keep(match_all(e, input, states), base),
    decreases e, 0int, 1int, states.len(),
{
    if states.len() > 0 {
        lemma_match_expr_keeps_names(e, input, states[0]);
        assert(states_keep(states.drop_first(), base)) by {
            assert forall|i: int| 0 <= i < states.drop_first().len() implies names_kept(
                base,
                #[trigger] states.drop_first()[i].caps,
            ) by {
                assert(states.drop_first()[i] == states[i + 1]);
            }
        }
        lemma_match_all_keeps_names(e, input, states.drop_first(), base);
        let a = match_expr(e, input, states[0]);
        let b = match_all(e, input, states.drop_first());
        assert(names_kept(base, states[0].caps));
        assert forall|i: int| 0 <= i < (a + b).len() implies names_kept(base, #[trigger] (a + b)[i].caps) by {
            if i < a.len() {
                assert((a + b)[i] == a[i]);
                assert(names_kept(states[0].caps, a[i].caps));
                assert forall|name: Seq<char>| capture_lookup(base, name) is Some implies #[trigger] capture_lookup(
                    a[i].caps,
                    name,
                ) is Some by {
                    assert(capture_lookup(states[0].caps, name) is Some);
                }
            } else {
                assert((a + b)[i] == b[i - a.len()]);
            }
        }
        assert(match_all(e, input, states) == a + b);
    }
}

/// Ordered choice keeps the captured names.
pub proof fn lemma_match_choice_keeps_names(items: Seq<SpecExpression>, input: Seq<char>, st: SpecState)
    ensures
        states_keep(match_choice(items, input, st), st.caps),
    decreases items, 0int, 0int, 0int,
{
    if items.len() > 0 {
        lemma_match_expr_keeps_names(items[0], input, st);
        lemma_match_choice_keeps_names(items.drop_first(), input, st);
    }
}

/// Repetition keeps the captured names.
pub proof fn lemma_match_repeat_keeps_names(
    inner: SpecExpression,
    min: usize,
    max: Option<usize>,
    input: Seq<char>,
    st: SpecState,
    count: nat,
)
    ensures
        states_keep(match_repeat(inner, min, max, input, st, count), st.caps),
    decreases inner, rest_measure(input, st.pos), 2int, 0int,
{
    let a = if max is None || count < max->0 {
        repeat_each(inner, min, max, input, st, count, match_expr(inner, input, st))
    } else {
        Seq::empty()
    };
    let b: Seq<SpecState> = if count >= min {
        seq![st]
    } else {
        Seq::empty()
    };
    if max is None || count < max->0 {
        lemma_match_expr_keeps_names(inner, input, st);
        lemma_repeat_each_keeps_names(inner, min, max, input, st, count, match_expr(inner, input, st));
    }
    assert forall|i: int| 0 <= i < (a + b).len() implies names_kept(st.caps, #[trigger] (a + b)[i].caps) by {
        if i < a.len() {
            assert((a + b)[i] == a[i]);
        } else {
            assert((a + b)[i] == b[i - a.len()]);
        }
    }
    assert(match_repeat(inner, min, max, input, st, count) == a + b);
}

/// Further repetitions keep the captured names.
pub proof fn lemma_repeat_each_keeps_names(
    inner: SpecExpression,
    min: usize,
    max: Option<usize>,
    input: Seq<char>,
    st: SpecState,
    count: nat,
    nexts: Seq<SpecState>,
)
    requires
        states_keep(nexts, st.caps),
    ensures
        states_keep(repeat_each(inner, min, max, input, st, count, nexts), st.caps),
    decreases inner, rest_measure(input, st.pos), 1int, nexts.len(),
{
    if nexts.len() > 0 {
        let a = if st.pos < nexts[0].pos <= input.len() {
            match_repeat(inner, min, max, input, nexts[0], count + 1)
        } else {
            Seq::empty()
        };
        let b = repeat_each(inner, min, max, input, st, count, nexts.drop_first());
        assert(names_kept(st.caps, nexts[0].caps));
        if st.pos < nexts[0].pos <= input.len() {
            lemma_match_repeat_keeps_names(inner, min, max, input, nexts[0], count + 1);
        }
        assert(states_keep(nexts.drop_first(), st.caps)) by {
            assert forall|i: int| 0 <= i < nexts.drop_first().len() implies names_kept(
                st.caps,
                #[trigger] nexts.drop_first()[i].caps,
            ) by {
                assert(nexts.drop_first()[i] == nexts[i + 1]);
            }
        }
        lemma_repeat_each_keeps_names(inner, min, max, input, st, count, nexts.drop_first());
        assert forall|i: int| 0 <= i < (a + b).len() implies names_kept(st.caps, #[trigger] (a + b)[i].caps) by {
            if i < a.len() {
                assert((a + b)[i] == a[i]);
                assert(names_kept(nexts[0].caps, a[i].caps));
                assert forall|name: Seq<char>| capture_lookup(st.caps, name) is Some implies #[trigger] capture_lookup(
                    a[i].caps,
                    name,
                ) is Some by {
                    assert(capture_lookup(nexts[0].caps, name) is Some);
                }
            } else {
                assert((a + b)[i] == b[i - a.len()]);
            }
        }
        assert(repeat_each(inner, min, max, input, st, count, nexts) == a + b);
    } else {
        assert(repeat_each(inner, min, max, input, st, count, nexts).len() == 0);
    }
}

/// A search finds the leftmost match: it starts at the first position from
/// `start` on at which the expression matches at all, and it is the first
/// state reached from there; when there is none, the expression matches
/// nowhere from `start` on.
pub proof fn lemma_find_at_leftmost(e: SpecExpression, input: Seq<char>, start: nat)
    ensures
        match find_at(e, input, start) {
            Some((s, st)) => {
                &&& forall|p: nat| start <= p < s ==> #[trigger] match_expr(e, input, initial_state(p)).len() == 0
                &&& match_expr(e, input, initial_state(s)).len() > 0
                &&& st == match_expr(e, input, initial_state(s))[0]
            },
            None => forall|p: nat| start <= p <= input.len() ==> #[trigger] match_expr(e, input, initial_state(p)).len() == 0,
        },
    decreases input.len() + 1 - start,
{
    if start <= input.len() && match_expr(e, input, initial_state(start)).len() == 0 {
        lemma_find_at_leftmost(e, input, start + 1);
    }
}

/// A state of the executable matcher: a position (a character index) and the
/// captures recorded so far.
pub struct State {
    pub pos: usize,
    pub captures: Vec<(Vec<char>, Vec<char>)>,
}

impl View for State {
    type V = SpecState;

    open spec fn view(&self) -> SpecState {
        SpecState { pos: self.pos as nat, caps: captures_view(self.captures@) }
    }
}

/// The models of a list of states.
pub open spec fn states_view(states: Seq<State>) -> Seq<SpecState> {
    states.map_values(|s: State| s@)
}

/// A copy of `v`.
pub(crate) fn clone_chars(v: &Vec<char>) -> (r: Vec<char>)
    ensures
        r@ == v@,
{
    let r = v.clone();
    assert(r@ =~= v@);
    r
}

/// The characters `input[from..to]`.
pub(crate) fn slice_chars(input: &Vec<char>, from: usize, to: usize) -> (r: Vec<char>)
    requires
        from <= to <= input.len(),
    ensures
        r@ == input@.subrange(from as int, to as int),
{
    let mut r: Vec<char> = Vec::new();
    let mut i: usize = from;
    while i < to
        invariant
            from <= i <= to <= input.len(),
            r@ == input@.subrange(from as int, i as int),
        decreases to - i,
    {
        r.push(input[i]);
        i = i + 1;
        assert(r@ =~= input@.subrange(from as int, i as int));
    }
    r
}

/// A copy of a state.
pub(crate) fn clone_state(s: &State) -> (r: State)
    ensures
        r@ == s@,
{
    let mut captures: Vec<(Vec<char>, Vec<char>)> = Vec::new();
    let mut i: usize = 0;
    while i < s.captures.len()
        invariant
            i <= s.captures.len(),
            captures_view(captures@) == captures_view(s.captures@).take(i as int),
        decreases s.captures.len() - i,
    {
        let name = clone_chars(&s.captures[i].0);
        let text = clone_chars(&s.captures[i].1);
        let ghost prev = captures@;
        captures.push((name, text));
        assert(captures@ == prev.push((name, text)));
        assert(captures_view(captures@) =~= captures_view(prev).push((s.captures@[i as int].0@, s.captures@[i as int].1@)));
        i = i + 1;
        assert(captures_view(captures@) =~= captures_view(s.captures@).take(i as int));
    }
    assert(captures_view(s.captures@).take(s.captures.len() as int) =~= captures_view(s.captures@));
    State { pos: s.pos, captures }
}

/// The character at `position` and the position after it, if the input has one there.
pub(crate) fn next_char(input: &Vec<char>, position: usize) -> (r: Option<(char, usize)>)
    ensures
        r == if position < input.len() {
            Some((input@[position as int], (position + 1) as usize))
        } else {
            None::<(char, usize)>
        },
{
    if position < input.len() {
        Some((input[position], position + 1))
    } else {
        None
    }
}

/// The position of the next character boundary after `position`, or the end.
pub(crate) fn next_boundary(input: &Vec<char>, position: usize) -> (r: usize)
    ensures
        r == if position < input.len() { position + 1 } else { input.len() as int },
{
    match next_char(input, position) {
        Some((_, next)) => next,
        None => input.len(),
    }
}

/// Every state that `expression` can reach from `state`, in order of preference.
pub(crate) fn match_expression(expression: &Expression, input: &Vec<char>, state: State) -> (r: Vec<State>)
    requires
        state.pos <= input.len(),
    ensures
        states_view(r@) == match_expr(expression@, input@, state@),
    decreases expression, 0int, 1int,
{
    match expression {
        Expression::Empty => {
            let mut r: Vec<State> = Vec::new();
            r.push(state);
            assert(states_view(r@) =~= seq![state@]);
            r
        },
        Expression::Literal(expected) => {
            let mut r: Vec<State> = Vec::new();
            match next_char(input, state.pos) {
                Some((actual, next)) => {
                    if actual == *expected {
                        r.push(State { pos: next, captures: state.captures });
                    }
                },
                None => {},
            }
            assert(states_view(r@) =~= match_expr(expression@, input@, state@));
            r
        },
        Expression::Any => {
            let mut r: Vec<State> = Vec::new();
            match next_char(input, state.pos) {
                Some((_, next)) => {
                    r.push(State { pos: next, captures: state.captures });
                },
                None => {},
            }
            assert(states_view(r@) =~= match_expr(expression@, input@, state@));
            r
        },
        Expression::Class(class) => {
            let mut r: Vec<State> = Vec::new();
            match next_char(input, state.pos) {
                Some((actual, next)) => {
                    if class.contains(actual) {
                        r.push(State { pos: next, captures: state.captures });
                    }
                },
                None => {},
            }
            assert(states_view(r@) =~= match_expr(expression@, input@, state@));
            r
        },
        Expression::Sequence(items) => match_sequence(expression, items, input, state),
        Expression::Choice(items) => match_alternatives(expression, items, input, state),
        Expression::Repeat { expression: inner, min, max } => {
            let mut states: Vec<State> = Vec::new();
            proof {
                assert(decreases_to!(*expression => **inner));
            }
            collect_repetition(inner, input, state, 0, *min, *max, &mut states);
            assert(states_view(states@) =~= match_expr(expression@, input@, state@));
            states
        },
        Expression::Capture { name, expression: inner } => {
            let start = state.pos;
            let ghost st = state@;
            let name_chars = chars_of(name.as_str());
            proof {
                assert(decreases_to!(*expression => **inner));
                lemma_match_expr_within(inner@, input@, st, false);
            }
            let found = match_expression(inner, input, state);
            let ghost found_v = states_view(found@);
            let mut r: Vec<State> = Vec::new();
            for next in it: found.into_iter()
                invariant
                    found_v == states_view(it.seq()),
                    states_within(found_v, start as nat, input@, false),
                    states_view(r@) == capture_all(found_v.take(it.index() as int), name@, input@, start as nat),
                    name_chars@ == name@,
                    start <= input.len(),
            {
                let ghost k = it.index();
                let mut next = next;
                assert(next@ == found_v[k as int]);
                assert(start <= found_v[k as int].pos <= input.len());
                let text = slice_chars(input, start, next.pos);
                insert_capture(&mut next.captures, clone_chars(&name_chars), text);
                assert(next@ == SpecState {
                    pos: found_v[k as int].pos,
                    caps: capture_insert(found_v[k as int].caps, name@, input@.subrange(start as int, found_v[k as int].pos as int)),
                });
                let ghost prev_r = states_view(r@);
                r.push(next);
                assert(states_view(r@) =~= prev_r.push(next@));
                assert(found_v.take(k + 1) =~= found_v.take(k as int).push(found_v[k as int]));
                assert(states_view(r@) =~= capture_all(found_v.take(k + 1), name@, input@, start as nat));
            }
            assert(found_v.take(found_v.len() as int) =~= found_v);
            r
        },
    }
}

/// The states of a sequence: every way of matching the items one after the other.
fn match_sequence(expression: &Expression, items: &Vec<Expression>, input: &Vec<char>, state: State) -> (r: Vec<State>)
    requires
        *expression == Expression::Sequence(*items),
        state.pos <= input.len(),
    ensures
        states_view(r@) == match_expr(expression@, input@, state@),
    decreases expression, 0int, 0int,
{
    proof { lemma_exprs_view(items@); }
    let ghost items_v = match expression@ { SpecExpression::Sequence(v) => v, _ => Seq::empty() };
    let ghost st = state@;
    let mut states: Vec<State> = Vec::new();
    states.push(state);
    assert(states_view(states@) =~= seq![st]);
    assert(items_v.skip(0) =~= items_v);
    let mut k: usize = 0;
    while k < items.len()
        invariant
            k <= items.len(),
            *expression == Expression::Sequence(*items),
            expression@ == SpecExpression::Sequence(items_v),
            items_v.len() == items.len(),
            forall|i: int| 0 <= i < items.len() ==> #[trigger] items_v[i] == items@[i]@,
            states_within(states_view(states@), 0, input@, false),
            match_seq(items_v.skip(k as int), input@, states_view(states@)) == match_seq(items_v, input@, seq![st]),
            match_expr(expression@, input@, st) == match_seq(items_v, input@, seq![st]),
            st == state@,
        decreases items.len() - k,
    {
        let ghost before = states_view(states@);
        let ghost item = items_v[k as int];
        let mut next_states: Vec<State> = Vec::new();
        proof {
            assert(decreases_to!(*expression => items@[k as int]));
        }
        assert(before.skip(0) =~= before);
        assert(states_view(next_states@) =~= Seq::<SpecState>::empty());
        for current in it: states.into_iter()
            invariant
                *expression == Expression::Sequence(*items),
                decreases_to!(*expression => items@[k as int]),
                before == states_view(it.seq()),
                states_within(before, 0, input@, false),
                k < items.len(),
                item == items@[k as int]@,
                states_view(next_states@) + match_all(item, input@, before.skip(it.index() as int))
                    == match_all(item, input@, before),
                states_within(states_view(next_states@), 0, input@, false),
        {
            let ghost j = it.index();
            assert(current@ == before[j as int]);
            assert(before.skip(j as int).drop_first() =~= before.skip(j + 1));
            assert(before.skip(j as int)[0] == before[j as int]);
            proof {
                lemma_match_expr_within(item, input@, current@, false);
            }
            let mut found = match_expression(&items[k], input, current);
            let ghost prev = states_view(next_states@);
            next_states.append(&mut found);
            assert(states_view(next_states@) =~= prev + match_expr(item, input@, before[j as int]));
            assert(states_within(states_view(next_states@), 0, input@, false)) by {
                let all = states_view(next_states@);
                let fv = match_expr(item, input@, before[j as int]);
                assert forall|i: int| 0 <= i < all.len() implies 0 <= #[trigger] all[i].pos <= input.len() by {
                    if i < prev.len() {
                        assert(all[i] == prev[i]);
                    } else {
                        assert(all[i] == fv[i - prev.len()]);
                    }
                }
            }
        }
        assert(before.skip(before.len() as int) =~= Seq::<SpecState>::empty());
        assert(match_all(item, input@, Seq::<SpecState>::empty()) =~= Seq::<SpecState>::empty());
        assert(states_view(next_states@) =~= match_all(item, input@, before));
        assert(items_v.skip(k as int).drop_first() =~= items_v.skip(k + 1));
        assert(items_v.skip(k as int)[0] == items_v[k as int]);
        assert(match_seq(items_v.skip(k as int), input@, before) == match_seq(items_v.skip(k + 1), input@, states_view(next_states@)));
        states = next_states;
        if states.len() == 0 {
            assert(states_view(states@) =~= Seq::<SpecState>::empty());
            proof {
                lemma_match_seq_nothing(items_v.skip(k + 1), input@);
            }
            return states;
        }
        k = k + 1;
    }
    assert(items_v.skip(k as int) =~= Seq::<SpecExpression>::empty());
    states
}

/// From no states, a sequence reaches none.
proof fn lemma_match_seq_nothing(items: Seq<SpecExpression>, input: Seq<char>)
    ensures
        match_seq(items, input, Seq::empty()) =~= Seq::<SpecState>::empty(),
    decreases items.len(),
{
    if items.len() > 0 {
        assert(match_all(items[0], input, Seq::empty()) =~= Seq::<SpecState>::empty());
        lemma_match_seq_nothing(items.drop_first(), input);
    }
}

/// The states of an ordered choice: those of the first alternative that reaches any.
fn match_alternatives(expression: &Expression, items: &Vec<Expression>, input: &Vec<char>, state: State) -> (r: Vec<State>)
    requires
        *expression == Expression::Choice(*items),
        state.pos <= input.len(),
    ensures
        states_view(r@) == match_expr(expression@, input@, state@),
    decreases expression, 0int, 0int,
{
    proof { lemma_exprs_view(items@); }
    let ghost items_v = match expression@ { SpecExpression::Choice(v) => v, _ => Seq::empty() };
    assert(items_v.skip(0) =~= items_v);
    let mut k: usize = 0;
    while k < items.len()
        invariant
            k <= items.len(),
            *expression == Expression::Choice(*items),
            expression@ == SpecExpression::Choice(items_v),
            items_v.len() == items.len(),
            forall|i: int| 0 <= i < items.len() ==> #[trigger] items_v[i] == items@[i]@,
            state.pos <= input.len(),
            match_choice(items_v.skip(k as int), input@, state@) == match_choice(items_v, input@, state@),
        decreases items.len() - k,
    {
        assert(items_v.skip(k as int).drop_first() =~= items_v.skip(k + 1));
        assert(items_v.skip(k as int)[0] == items_v[k as int]);
        proof {
            assert(decreases_to!(*expression => items@[k as int]));
        }
        let found = match_expression(&items[k], input, clone_state(&state));
        if found.len() > 0 {
            return found;
        }
        k = k + 1;
    }
    assert(items_v.skip(k as int) =~= Seq::<SpecExpression>::empty());
    Vec::new()
}

/// Appends to `states` the states of `expression` repeated from round `count` on.
pub(crate) fn collect_repetition(
    expression: &Expression,
    input: &Vec<char>,
    state: State,
    count: usize,
    min: usize,
    max: Option<usize>,
    states: &mut Vec<State>,
)
    requires
        state.pos <= input.len(),
        count <= state.pos,
    ensures
        states_view(final(states)@) == states_view(old(states)@) + match_repeat(
            expression@,
            min,
            max,
            input@,
            state@,
            count as nat,
        ),
    decreases expression, input.len() + 1 - state.pos, 0int,
{
    let ghost st = state@;
    let ghost start = states_view(states@);
    let below_limit = match max {
        Some(limit) => count < limit,
        None => true,
    };
    if below_limit {
        proof {
            lemma_match_expr_within(expression@, input@, st, false);
        }
        let nexts = match_expression(expression, input, clone_state(&state));
        let ghost nv = states_view(nexts@);
        assert(nv.skip(0) =~= nv);
        for next in it: nexts.into_iter()
            invariant
                nv == states_view(it.seq()),
                states_within(nv, state.pos as nat, input@, false),
                state.pos <= input.len(),
                count <= state.pos,
                st == state@,
                states_view(states@) + repeat_each(expression@, min, max, input@, st, count as nat, nv.skip(it.index() as int))
                    == start + repeat_each(expression@, min, max, input@, st, count as nat, nv),
        {
            let ghost j = it.index();
            assert(next@ == nv[j as int]);
            assert(nv.skip(j as int).drop_first() =~= nv.skip(j + 1));
            assert(nv.skip(j as int)[0] == nv[j as int]);
            assert(state.pos <= nv[j as int].pos <= input.len());
            let ghost prev = states_view(states@);
            if next.pos != state.pos {
                collect_repetition(expression, input, next, count + 1, min, max, states);
            }
            assert(states_view(states@) + repeat_each(expression@, min, max, input@, st, count as nat, nv.skip(j + 1))
                =~= start + repeat_each(expression@, min, max, input@, st, count as nat, nv));
        }
        assert(nv.skip(nv.len() as int) =~= Seq::<SpecState>::empty());
        assert(repeat_each(expression@, min, max, input@, st, count as nat, Seq::<SpecState>::empty()) =~= Seq::<SpecState>::empty());
        assert(states_view(states@) =~= start + repeat_each(expression@, min, max, input@, st, count as nat, match_expr(expression@, input@, st)));
    }
    let ghost mid = states_view(states@);
    if count >= min {
        states.push(state);
        assert(states_view(states@) =~= mid.push(st));
    }
    assert(states_view(states@) =~= start + match_repeat(expression@, min, max, input@, st, count as nat));
}

/// The leftmost match of `expression` starting at or after `min_start`: its start
/// and the first state reached from there.
pub(crate) fn find_from(expression: &Expression, input: &Vec<char>, min_start: usize) -> (r: Option<(usize, State)>)
    ensures
        match find_at(expression@, input@, min_start as nat) {
            None => r is None,
            Some((s, st)) => r matches Some((s2, st2)) && s2 == s && st2@ == st,
        },
{
    if min_start > input.len() {
        return None;
    }
    let mut start = min_start;
    loop
        invariant
            min_start <= start <= input.len(),
            find_at(expression@, input@, start as nat) == find_at(expression@, input@, min_start as nat),
        decreases input.len() - start,
    {
        let init = State { pos: start, captures: Vec::new() };
        assert(captures_view(init.captures@) =~= Seq::<(Seq<char>, Seq<char>)>::empty());
        assert(init@ == initial_state(start as nat));
        let mut states = match_expression(expression, input, init);
        if states.len() > 0 {
            let first = states.remove(0);
            return Some((start, first));
        }
        if start == input.len() {
            assert(find_at(expression@, input@, (start + 1) as nat) is None);
            return None;
        }
        start = start + 1;
    }
}

} // verus!
