//! Whole matches, searches and replacement over a text, given a parsed expression.
use vstd::prelude::*;
use crate::captures::{CaptureList, capture_get, capture_lookup, captures_sorted, captures_view};
use crate::expression::{Expression, SpecExpression};
use crate::matcher::{
    SpecState, State, find_at, find_from, first_at, full_match, initial_state, lemma_find_at_within,
    match_expr, match_expression, next_boundary, slice_chars, states_view,
};
use crate::text::{
    boundary_indices, byte_len, byte_offset, chars_of, encoding_fits, identifier_continue,
    identifier_run, identifier_start, is_identifier_continue, is_identifier_start,
    lemma_identifier_run, lemma_identifier_run_is, string_of, string_of_range,
};

verus! {

/// A match found in a text. `start` and `end` are byte offsets into the text,
/// `text` is what lies between them, and `captures` holds each named capture
/// with its text, in increasing name order.
#[derive(Clone, Debug, PartialEq, Eq)]
pub struct MatchResult {
    pub start: usize,
    pub end: usize,
    pub text: String,
    pub captures: Vec<(String, String)>,
}

/// The abstract value of a list of `(name, text)` string pairs.
pub open spec fn string_pairs_view(pairs: Seq<(String, String)>) -> CaptureList {
    pairs.map_values(|p: (String, String)| (p.0@, p.1@))
}

/// `r` reports the match of `input` that starts at character `start` and reaches `st`.
pub open spec fn reports(r: MatchResult, input: Seq<char>, start: nat, st: SpecState) -> bool {
    &&& r.start == byte_offset(input, start as int)
    &&& r.end == byte_offset(input, st.pos as int)
    &&& r.text@ == input.subrange(start as int, st.pos as int)
    &&& string_pairs_view(r.captures@) == st.caps
}

/// `rs` reports, one for one and in order, the matches `found`.
pub open spec fn reports_all(rs: Seq<MatchResult>, input: Seq<char>, found: Seq<(nat, SpecState)>) -> bool {
    &&& rs.len() == found.len()
    &&& forall|i: int| 0 <= i < rs.len() ==> reports(#[trigger] rs[i], input, found[i].0, found[i].1)
}

/// All the matches that a left-to-right search finds from `cursor` on: after a
/// match, the search goes on where it ended, or one character further when it
/// was empty; an empty match at the end of the input ends the search.
pub open spec fn find_all_from(e: SpecExpression, input: Seq<char>, cursor: nat) -> Seq<(nat, SpecState)>
    decreases input.len() + 1 - cursor,
{
    if cursor > input.len() {
        Seq::empty()
    } else {
        match find_at(e, input, cursor) {
            None => Seq::empty(),
            Some((s, st)) => {
                proof {
                    lemma_find_at_within(e, input, cursor);
                }
                seq![(s, st)] + if st.pos == s {
                    if s == input.len() {
                        Seq::empty()
                    } else {
                        find_all_from(e, input, s + 1)
                    }
                } else {
                    find_all_from(e, input, st.pos)
                }
            }
        }
    }
}

/// The number of leading characters of `s` before the first `}`.
pub open spec fn brace_run(s: Seq<char>) -> nat
    decreases s.len(),
{
    if s.len() > 0 && s[0] != '}' {
        1 + brace_run(s.drop_first())
    } else {
        0
    }
}

/// The run is a prefix of `s`, and is followed by `}` when shorter than `s`.
pub proof fn lemma_brace_run(s: Seq<char>)
    ensures
        brace_run(s) <= s.len(),
        forall|i: int| 0 <= i < brace_run(s) ==> #[trigger] s[i] != '}',
        brace_run(s) < s.len() ==> s[brace_run(s) as int] == '}',
    decreases s.len(),
{
    if s.len() > 0 && s[0] != '}' {
        lemma_brace_run(s.drop_first());
        assert forall|i: int| 0 <= i < brace_run(s) implies #[trigger] s[i] != '}' by {
            if i > 0 {
                assert(s[i] == s.drop_first()[i - 1]);
            }
        }
    }
}

/// The text captured under `name`, or nothing.
pub open spec fn lookup_text(caps: CaptureList, name: Seq<char>) -> Seq<char> {
    match capture_lookup(caps, name) {
        Some(v) => v,
        None => Seq::empty(),
    }
}

/// The replacement text that `template` gives for a match of `text` with
/// captures `caps`: `$$` stands for `$`, `$0` for the whole match, `${name}`
/// and `$name` for a capture (nothing when there is none of that name); an
/// unclosed `${` is kept with the rest of the template, and any other `$`
/// stands for itself.
pub open spec fn render(t: Seq<char>, text: Seq<char>, caps: CaptureList) -> Seq<char>
    decreases t.len(),
{
    if t.len() == 0 {
        Seq::empty()
    } else if t[0] != '$' {
        seq![t[0]] + render(t.drop_first(), text, caps)
    } else if t.len() == 1 {
        seq!['$']
    } else if t[1] == '$' {
        seq!['$'] + render(t.skip(2), text, caps)
    } else if t[1] == '0' {
        text + render(t.skip(2), text, caps)
    } else if t[1] == '{' {
        let rest = t.skip(2);
        let n = brace_run(rest);
        proof {
            lemma_brace_run(rest);
        }
        if n < rest.len() {
            lookup_text(caps, rest.take(n as int)) + render(rest.skip(n + 1int), text, caps)
        } else {
            seq!['$', '{'] + rest
        }
    } else if identifier_start(t[1]) {
        let n = identifier_run(t.skip(1));
        proof {
            lemma_identifier_run(t.skip(1));
            assert(t.skip(1)[0] == t[1]);
        }
        lookup_text(caps, t.subrange(1, 1 + n as int)) + render(t.skip(1 + n as int), text, caps)
    } else {
        seq!['$'] + render(t.drop_first(), text, caps)
    }
}

/// Everything of `input` from `from` on, with each match of `found` replaced by
/// what `template` renders for it.
pub open spec fn splice_matches(
    input: Seq<char>,
    found: Seq<(nat, SpecState)>,
    template: Seq<char>,
    from: nat,
) -> Seq<char>
    decreases found.len(),
{
    if found.len() == 0 {
        input.subrange(from as int, input.len() as int)
    } else {
        let (s, st) = found[0];
        input.subrange(from as int, s as int) + render(
            template,
            input.subrange(s as int, st.pos as int),
            st.caps,
        ) + splice_matches(input, found.drop_first(), template, st.pos)
    }
}

/// `input` with every match that the search finds replaced by its rendering of `template`.
pub open spec fn replace_all_spec(e: SpecExpression, template: Seq<char>, input: Seq<char>) -> Seq<char> {
    splice_matches(input, find_all_from(e, input, 0), template, 0)
}

/// A scan that stops at the first `}` measures the brace run.
pub proof fn lemma_brace_run_is(s: Seq<char>, m: int)
    requires
        0 <= m <= s.len(),
        forall|k: int| 0 <= k < m ==> #[trigger] s[k] != '}',
        m < s.len() ==> s[m] == '}',
    ensures
        brace_run(s) == m,
    decreases m,
{
    if m > 0 {
        assert forall|k: int| 0 <= k < m - 1 implies #[trigger] s.drop_first()[k] != '}' by {
            assert(s.drop_first()[k] == s[k + 1]);
        }
        lemma_brace_run_is(s.drop_first(), m - 1);
    }
}

/// Appends `src[from..to]` to `out`.
pub(crate) fn append_range(out: &mut Vec<char>, src: &Vec<char>, from: usize, to: usize)
    requires
        from <= to <= src.len(),
    ensures
        final(out)@ == old(out)@ + src@.subrange(from as int, to as int),
{
    let mut i = from;
    while i < to
        invariant
            from <= i <= to <= src.len(),
            out@ == old(out)@ + src@.subrange(from as int, i as int),
        decreases to - i,
    {
        out.push(src[i]);
        i = i + 1;
        assert(out@ =~= old(out)@ + src@.subrange(from as int, i as int));
    }
}

/// What `template` gives for a match of `text` with `captures`.
pub(crate) fn render_replacement(template: &Vec<char>, text: &Vec<char>, captures: &Vec<(Vec<char>, Vec<char>)>) -> (r: Vec<char>)
    ensures
        r@ == render(template@, text@, captures_view(captures@)),
{
    let ghost t = template@;
    let ghost caps = captures_view(captures@);
    let mut output: Vec<char> = Vec::new();
    let mut i: usize = 0;
    let len = template.len();
    assert(t.skip(0) =~= t);
    while i < len
        invariant
            len == template.len(),
            t == template@,
            caps == captures_view(captures@),
            i <= len,
            output@ + render(t.skip(i as int), text@, caps) == render(t, text@, caps),
        decreases len - i,
    {
        let ghost rest = t.skip(i as int);
        let ghost before = output@;
        assert(rest[0] == t[i as int]);
        let current = template[i];
        if current != '$' {
            output.push(current);
            assert(rest.drop_first() =~= t.skip(i + 1));
            i = i + 1;
            assert(output@ + render(t.skip(i as int), text@, caps) =~= before + render(rest, text@, caps));
            continue;
        }
        if i + 1 == len {
            output.push('$');
            i = len;
            assert(t.skip(i as int) =~= Seq::<char>::empty());
            assert(output@ =~= before + render(rest, text@, caps));
            continue;
        }
        let next = template[i + 1];
        assert(rest[1] == next);
        if next == '$' {
            output.push('$');
            assert(rest.skip(2) =~= t.skip(i + 2));
            i = i + 2;
            assert(output@ + render(t.skip(i as int), text@, caps) =~= before + render(rest, text@, caps));
        } else if next == '0' {
            let mut whole = slice_chars(text, 0, text.len());
            assert(whole@ =~= text@);
            output.append(&mut whole);
            assert(rest.skip(2) =~= t.skip(i + 2));
            i = i + 2;
            assert(output@ + render(t.skip(i as int), text@, caps) =~= before + render(rest, text@, caps));
        } else if next == '{' {
            let ghost inner = rest.skip(2);
            assert(inner =~= t.skip(i + 2));
            let mut j = i + 2;
            while j < len && template[j] != '}'
                invariant
                    i + 2 <= j <= len,
                    len == template.len(),
                    t == template@,
                    forall|k: int| i + 2 <= k < j ==> #[trigger] t[k] != '}',
                decreases len - j,
            {
                j = j + 1;
            }
            assert forall|k: int| 0 <= k < j - (i + 2) implies #[trigger] inner[k] != '}' by {
                assert(inner[k] == t[k + i + 2]);
            }
            if j < len {
                assert(inner[j - (i + 2)] == t[j as int]);
            }
            proof {
                lemma_brace_run_is(inner, j - (i + 2));
            }
            if j < len {
                let name = slice_chars(template, i + 2, j);
                assert(name@ =~= inner.take(j - (i + 2)));
                match capture_get(captures, &name) {
                    Some(value) => {
                        let mut v = slice_chars(value, 0, value.len());
                        assert(v@ =~= value@);
                        output.append(&mut v);
                    },
                    None => {},
                }
                assert(inner.skip(j - (i + 2) + 1) =~= t.skip(j + 1));
                i = j + 1;
                assert(output@ + render(t.skip(i as int), text@, caps) =~= before + render(rest, text@, caps));
            } else {
                output.push('$');
                output.push('{');
                append_range(&mut output, template, i + 2, len);
                assert(inner =~= t.subrange(i + 2, len as int));
                i = len;
                assert(t.skip(i as int) =~= Seq::<char>::empty());
                assert(output@ =~= before + render(rest, text@, caps));
            }
        } else if is_identifier_start(next) {
            let ghost inner = rest.skip(1);
            let mut j = i + 1;
            while j < len && is_identifier_continue(template[j])
                invariant
                    i + 1 <= j <= len,
                    len == template.len(),
                    t == template@,
                    forall|k: int| i + 1 <= k < j ==> identifier_continue(#[trigger] t[k]),
                decreases len - j,
            {
                j = j + 1;
            }
            assert forall|k: int| 0 <= k < j - (i + 1) implies identifier_continue(#[trigger] inner[k]) by {
                assert(inner[k] == t[k + i + 1]);
            }
            if j < len {
                assert(inner[j - (i + 1)] == t[j as int]);
            }
            proof {
                lemma_identifier_run_is(inner, j - (i + 1));
            }
            let name = slice_chars(template, i + 1, j);
            assert(name@ =~= rest.subrange(1, 1 + (j - (i + 1))));
            match capture_get(captures, &name) {
                Some(value) => {
                    let mut v = slice_chars(value, 0, value.len());
                    assert(v@ =~= value@);
                    output.append(&mut v);
                },
                None => {},
            }
            assert(rest.skip(1 + (j - (i + 1))) =~= t.skip(j as int));
            i = j;
            assert(output@ + render(t.skip(i as int), text@, caps) =~= before + render(rest, text@, caps));
        } else {
            output.push('$');
            assert(rest.drop_first() =~= t.skip(i + 1));
            i = i + 1;
            assert(output@ + render(t.skip(i as int), text@, caps) =~= before + render(rest, text@, caps));
        }
    }
    assert(t.skip(i as int) =~= Seq::<char>::empty());
    assert(output@ =~= render(t, text@, caps));
    output
}

/// The report of the match of `input` from character `start` to `state`.
fn report(input: &Vec<char>, offsets: &Vec<usize>, start: usize, state: &State) -> (r: MatchResult)
    requires
        offsets.len() == input.len() + 1,
        forall|i: int| 0 <= i <= input.len() ==> offsets@[i] == byte_offset(input@, i),
        start <= state.pos <= input.len(),
    ensures
        reports(r, input@, start as nat, state@),
{
    let text = string_of_range(input, start, state.pos);
    let mut captures: Vec<(String, String)> = Vec::new();
    let mut i: usize = 0;
    while i < state.captures.len()
        invariant
            i <= state.captures.len(),
            string_pairs_view(captures@) == captures_view(state.captures@).take(i as int),
        decreases state.captures.len() - i,
    {
        let name = string_of(&state.captures[i].0);
        let value = string_of(&state.captures[i].1);
        let ghost prev = captures@;
        captures.push((name, value));
        assert(string_pairs_view(captures@) =~= string_pairs_view(prev).push(
            (state.captures@[i as int].0@, state.captures@[i as int].1@),
        ));
        i = i + 1;
        assert(string_pairs_view(captures@) =~= captures_view(state.captures@).take(i as int));
    }
    assert(captures_view(state.captures@).take(state.captures.len() as int) =~= captures_view(
        state.captures@,
    ));
    MatchResult { start: offsets[start], end: offsets[state.pos], text, captures }
}

/// The state in which `expression` first matches all of `input`, if any.
pub(crate) fn full_match_state(expression: &Expression, input: &Vec<char>) -> (r: Option<State>)
    ensures
        match full_match(expression@, input@) {
            None => r is None,
            Some(st) => r matches Some(s) && s@ == st && s.pos == input.len(),
        },
{
    let init = State { pos: 0, captures: Vec::new() };
    assert(captures_view(init.captures@) =~= Seq::<(Seq<char>, Seq<char>)>::empty());
    assert(init@ == initial_state(0));
    let states = match_expression(expression, input, init);
    let ghost sv = states_view(states@);
    assert(sv.skip(0) =~= sv);
    for state in it: states.into_iter()
        invariant
            sv == states_view(it.seq()),
            first_at(sv.skip(it.index() as int), input.len() as nat) == full_match(expression@, input@),
    {
        let ghost j = it.index();
        assert(state@ == sv[j as int]);
        assert(sv.skip(j as int)[0] == sv[j as int]);
        assert(sv.skip(j as int).drop_first() =~= sv.skip(j + 1));
        if state.pos == input.len() {
            return Some(state);
        }
    }
    assert(sv.skip(sv.len() as int) =~= Seq::<SpecState>::empty());
    None
}

/// The preferred way for `expression` to match all of `input`, if there is one.
#[must_use]
pub fn match_full_expression(expression: &Expression, input: &str) -> (r: Option<MatchResult>)
    ensures
        match full_match(expression@, input@) {
            None => r is None,
            Some(st) => r matches Some(m) && reports(m, input@, 0, st),
        },
{
    encoding_fits(input);
    let chars = chars_of(input);
    let offsets = boundary_indices(&chars);
    match full_match_state(expression, &chars) {
        Some(state) => Some(report(&chars, &offsets, 0, &state)),
        None => None,
    }
}

/// The leftmost match of `expression` in `input`, if any.
pub(crate) fn find_first_expression(expression: &Expression, input: &str) -> (r: Option<MatchResult>)
    ensures
        match find_at(expression@, input@, 0) {
            None => r is None,
            Some((s, st)) => r matches Some(m) && reports(m, input@, s, st),
        },
{
    encoding_fits(input);
    let chars = chars_of(input);
    let offsets = boundary_indices(&chars);
    proof {
        lemma_find_at_within(expression@, chars@, 0);
    }
    match find_from(expression, &chars, 0) {
        Some((start, state)) => Some(report(&chars, &offsets, start, &state)),
        None => None,
    }
}

/// Every match that a left-to-right search of `input` finds for `expression`.
#[must_use]
pub fn find_all_expression(expression: &Expression, input: &str) -> (r: Vec<MatchResult>)
    ensures
        reports_all(r@, input@, find_all_from(expression@, input@, 0)),
        r.len() <= input@.len() + 1,
{
    proof {
        lemma_find_all_each_found(expression@, input@, 0);
    }
    encoding_fits(input);
    let chars = chars_of(input);
    let offsets = boundary_indices(&chars);
    let ghost all = find_all_from(expression@, chars@, 0);
    let mut results: Vec<MatchResult> = Vec::new();
    let ghost mut done: Seq<(nat, SpecState)> = Seq::empty();
    let mut cursor: usize = 0;
    loop
        invariant_except_break
            cursor <= chars.len(),
            done + find_all_from(expression@, chars@, cursor as nat) == all,
        invariant
            all == find_all_from(expression@, chars@, 0),
            chars@ == input@,
            offsets.len() == chars.len() + 1,
            forall|i: int| 0 <= i <= chars.len() ==> offsets@[i] == byte_offset(chars@, i),
            reports_all(results@, chars@, done),
        ensures
            done == all,
        decreases chars.len() - cursor,
    {
        proof {
            lemma_find_at_within(expression@, chars@, cursor as nat);
        }
        let ghost rest = find_all_from(expression@, chars@, cursor as nat);
        match find_from(expression, &chars, cursor) {
            None => {
                assert(rest =~= Seq::<(nat, SpecState)>::empty());
                assert(done + rest =~= done);
                break;
            },
            Some((start, state)) => {
                let m = report(&chars, &offsets, start, &state);
                let ghost prev = results@;
                results.push(m);
                proof {
                    assert(rest[0] == (start as nat, state@));
                    assert(done.push((start as nat, state@)) + rest.drop_first() =~= done + rest);
                    done = done.push((start as nat, state@));
                    assert forall|i: int| 0 <= i < results@.len() implies reports(
                        #[trigger] results@[i],
                        chars@,
                        done[i].0,
                        done[i].1,
                    ) by {
                        if i < prev.len() {
                            assert(results@[i] == prev[i]);
                        }
                    }
                }
                if start == state.pos {
                    if state.pos == chars.len() {
                        assert(rest.drop_first() =~= Seq::<(nat, SpecState)>::empty());
                        assert(done =~= all);
                        break;
                    }
                    cursor = next_boundary(&chars, state.pos);
                } else {
                    cursor = state.pos;
                }
            },
        }
    }
    results
}

/// `input` with every match that a search finds for `expression` replaced by
/// what `replacement` renders for it.
#[must_use]
pub fn replace_all_expression(expression: &Expression, replacement: &str, input: &str) -> (r: String)
    ensures
        r@ == replace_all_spec(expression@, replacement@, input@),
{
    let chars = chars_of(input);
    let template = chars_of(replacement);
    let ghost goal = replace_all_spec(expression@, template@, chars@);
    let mut output: Vec<char> = Vec::new();
    let mut copied_until: usize = 0;
    let mut search_start: usize = 0;
    loop
        invariant_except_break
            search_start <= chars.len(),
            copied_until <= search_start,
            output@ + splice_matches(
                chars@,
                find_all_from(expression@, chars@, search_start as nat),
                template@,
                copied_until as nat,
            ) == goal,
        invariant
            goal == replace_all_spec(expression@, template@, chars@),
            copied_until <= chars.len(),
        ensures
            output@ + chars@.subrange(copied_until as int, chars.len() as int) == goal,
        decreases chars.len() - search_start,
    {
        proof {
            lemma_find_at_within(expression@, chars@, search_start as nat);
        }
        let ghost rest = find_all_from(expression@, chars@, search_start as nat);
        let ghost before = output@;
        let ghost old_copied = copied_until;
        match find_from(expression, &chars, search_start) {
            None => {
                assert(rest =~= Seq::<(nat, SpecState)>::empty());
                break;
            },
            Some((start, state)) => {
                assert(rest[0] == (start as nat, state@));
                append_range(&mut output, &chars, copied_until, start);
                let text = slice_chars(&chars, start, state.pos);
                let mut rendered = render_replacement(&template, &text, &state.captures);
                output.append(&mut rendered);
                copied_until = state.pos;
                assert(output@ + splice_matches(chars@, rest.drop_first(), template@, copied_until as nat)
                    =~= before + splice_matches(chars@, rest, template@, old_copied as nat));
                if start == state.pos {
                    if state.pos == chars.len() {
                        assert(rest.drop_first() =~= Seq::<(nat, SpecState)>::empty());
                        break;
                    }
                    search_start = next_boundary(&chars, state.pos);
                } else {
                    search_start = state.pos;
                }
                assert(rest.drop_first() =~= find_all_from(expression@, chars@, search_start as nat));
            },
        }
    }
    append_range(&mut output, &chars, copied_until, chars.len());
    string_of(&output)
}

/// The matches `found` all lie in `input` from `from` on, in order and without
/// overlapping, each with its captures in name order; after an empty match the
/// next one starts strictly later.
pub open spec fn matches_in_order(found: Seq<(nat, SpecState)>, from: nat, input: Seq<char>) -> bool {
    &&& forall|i: int|
        0 <= i < found.len() ==> from <= #[trigger] found[i].0 <= found[i].1.pos <= input.len()
            && captures_sorted(found[i].1.caps)
    &&& forall|i: int, j: int| 0 <= i < j < found.len() ==> #[trigger] found[i].1.pos <= #[trigger] found[j].0
    &&& forall|i: int|
        0 <= i < found.len() - 1 && #[trigger] found[i].0 == found[i].1.pos ==> found[i].1.pos < found[i
            + 1].0
}

/// A search finds its matches in order, without overlaps, and moves past
/// every empty match.
pub proof fn lemma_find_all_in_order(e: SpecExpression, input: Seq<char>, cursor: nat)
    ensures
        matches_in_order(find_all_from(e, input, cursor), cursor, input),
    decreases input.len() + 1 - cursor,
{
    let all = find_all_from(e, input, cursor);
    if cursor <= input.len() {
        lemma_find_at_within(e, input, cursor);
        match find_at(e, input, cursor) {
            None => {},
            Some((s, st)) => {
                let next: nat = if st.pos == s {
                    (s + 1) as nat
                } else {
                    st.pos
                };
                let rest = if st.pos == s && s == input.len() {
                    Seq::<(nat, SpecState)>::empty()
                } else {
                    find_all_from(e, input, next)
                };
                if !(st.pos == s && s == input.len()) {
                    lemma_find_all_in_order(e, input, next);
                }
                assert(all == seq![(s, st)] + rest);
                assert forall|i: int| 0 <= i < all.len() implies cursor <= #[trigger] all[i].0 <= all[i].1.pos
                    <= input.len() && captures_sorted(all[i].1.caps) by {
                    if i > 0 {
                        assert(all[i] == rest[i - 1]);
                    }
                }
                assert forall|i: int, j: int| 0 <= i < j < all.len() implies #[trigger] all[i].1.pos
                    <= #[trigger] all[j].0 by {
                    assert(all[j] == rest[j - 1]);
                    if i > 0 {
                        assert(all[i] == rest[i - 1]);
                    }
                }
                assert forall|i: int| 0 <= i < all.len() - 1 && #[trigger] all[i].0 == all[i].1.pos implies all[i].1.pos
                    < all[i + 1].0 by {
                    assert(all[i + 1] == rest[i]);
                    if i > 0 {
                        assert(all[i] == rest[i - 1]);
                    }
                }
            },
        }
    }
}

/// A search that skips only positions where nothing matches finds the same.
proof fn lemma_find_at_skip(e: SpecExpression, input: Seq<char>, c: nat, s: nat)
    requires
        c <= s,
        forall|p: nat| c <= p < s ==> #[trigger] match_expr(e, input, initial_state(p)).len() == 0,
    ensures
        find_at(e, input, c) == find_at(e, input, s),
    decreases s - c,
{
    if c < s {
        assert(match_expr(e, input, initial_state(c)).len() == 0);
        lemma_find_at_skip(e, input, c + 1, s);
    }
}

/// Each match of a search is what a search from its start finds; the starts
/// strictly increase, so there are at most as many matches as positions left.
pub proof fn lemma_find_all_each_found(e: SpecExpression, input: Seq<char>, cursor: nat)
    ensures
        ({
            let all = find_all_from(e, input, cursor);
            &&& forall|i: int| 0 <= i < all.len() ==> find_at(e, input, #[trigger] all[i].0) == Some(all[i])
            &&& forall|i: int| 0 <= i < all.len() - 1 ==> #[trigger] all[i].0 < all[i + 1].0
            &&& cursor <= input.len() + 1 ==> all.len() <= input.len() + 1 - cursor
        }),
    decreases input.len() + 1 - cursor,
{
    let all = find_all_from(e, input, cursor);
    if cursor <= input.len() {
        lemma_find_at_within(e, input, cursor);
        match find_at(e, input, cursor) {
            None => {},
            Some((s, st)) => {
                assert(find_at(e, input, cursor) == find_at(e, input, s)) by {
                    crate::matcher::lemma_find_at_leftmost(e, input, cursor);
                    lemma_find_at_skip(e, input, cursor, s);
                }
                let next: nat = if st.pos == s {
                    (s + 1) as nat
                } else {
                    st.pos
                };
                let rest = if st.pos == s && s == input.len() {
                    Seq::<(nat, SpecState)>::empty()
                } else {
                    find_all_from(e, input, next)
                };
                if !(st.pos == s && s == input.len()) {
                    lemma_find_all_each_found(e, input, next);
                    assert(rest.len() > 0 ==> next <= rest[0].0) by {
                        lemma_find_all_in_order(e, input, next);
                    }
                }
                assert(all == seq![(s, st)] + rest);
                assert forall|i: int| 0 <= i < all.len() implies find_at(e, input, #[trigger] all[i].0)
                    == Some(all[i]) by {
                    if i > 0 {
                        assert(all[i] == rest[i - 1]);
                    }
                }
                assert forall|i: int| 0 <= i < all.len() - 1 implies #[trigger] all[i].0 < all[i + 1].0 by {
                    assert(all[i + 1] == rest[i]);
                    if i > 0 {
                        assert(all[i] == rest[i - 1]);
                    }
                }
            },
        }
    }
}

/// The first match of a search is the leftmost match.
pub proof fn lemma_find_all_starts_with_first(e: SpecExpression, input: Seq<char>)
    ensures
        find_all_from(e, input, 0).len() > 0 <==> find_at(e, input, 0) is Some,
        find_at(e, input, 0) matches Some(f) ==> find_all_from(e, input, 0)[0] == f,
{
}

/// A whole match ends at the end of the input.
pub proof fn lemma_full_match_covers_input(e: SpecExpression, input: Seq<char>)
    ensures
        full_match(e, input) matches Some(st) ==> st.pos == input.len() && captures_sorted(st.caps),
{
    lemma_first_at(match_expr(e, input, initial_state(0)), input.len());
    crate::matcher::lemma_match_expr_within(e, input, initial_state(0), true);
}

/// When a pattern matches the whole input, a search finds a match at the start.
pub proof fn lemma_full_match_found_at_start(e: SpecExpression, input: Seq<char>)
    ensures
        full_match(e, input) is Some ==> (find_at(e, input, 0) matches Some((s, _)) && s == 0),
{
    lemma_first_at(match_expr(e, input, initial_state(0)), input.len());
}

/// A reported match lies within the text: its start comes no later than its
/// end, which comes no later than the end of the text.
pub proof fn lemma_reported_within(r: MatchResult, input: Seq<char>, start: nat, st: SpecState)
    requires
        reports(r, input, start, st),
        start <= st.pos <= input.len(),
    ensures
        r.start <= r.end <= byte_len(input),
{
    crate::text::lemma_byte_offset_monotone(input, start as int, st.pos as int);
}

/// The offsets of a reported match are character boundaries of the text's
/// UTF-8 encoding.
pub proof fn lemma_reported_at_boundaries(r: MatchResult, input: Seq<char>, start: nat, st: SpecState)
    requires
        reports(r, input, start, st),
        start <= st.pos <= input.len(),
    ensures
        vstd::utf8::is_char_boundary(vstd::utf8::encode_utf8(input), r.start as int),
        vstd::utf8::is_char_boundary(vstd::utf8::encode_utf8(input), r.end as int),
{
    crate::text::lemma_byte_offset_is_char_boundary(input, start as int);
    crate::text::lemma_byte_offset_is_char_boundary(input, st.pos as int);
}

proof fn lemma_first_at(states: Seq<SpecState>, pos: nat)
    ensures
        first_at(states, pos) matches Some(st) ==> st.pos == pos && exists|i: int|
            0 <= i < states.len() && states[i] == st,
    decreases states.len(),
{
    if states.len() > 0 && states[0].pos != pos {
        lemma_first_at(states.drop_first(), pos);
        if let Some(st) = first_at(states, pos) {
            let i = choose|i: int| 0 <= i < states.drop_first().len() && states.drop_first()[i] == st;
            assert(states[i + 1] == st);
        }
    }
}

/// A template without `$` renders as itself.
pub proof fn lemma_render_plain(t: Seq<char>, text: Seq<char>, caps: CaptureList)
    requires
        forall|i: int| 0 <= i < t.len() ==> t[i] != '$',
    ensures
        render(t, text, caps) == t,
    decreases t.len(),
{
    if t.len() > 0 {
        assert forall|i: int| 0 <= i < t.drop_first().len() implies t.drop_first()[i] != '$' by {
            assert(t.drop_first()[i] == t[i + 1]);
        }
        lemma_render_plain(t.drop_first(), text, caps);
        assert(t =~= seq![t[0]] + t.drop_first());
    }
}

/// Where nothing matches, replacing leaves the input as it is.
pub proof fn lemma_replace_without_matches(e: SpecExpression, template: Seq<char>, input: Seq<char>)
    requires
        find_all_from(e, input, 0).len() == 0,
    ensures
        replace_all_spec(e, template, input) == input,
{
    assert(input.subrange(0, input.len() as int) =~= input);
}

/// Replacing each match by itself (`$0`) leaves the input as it is.
pub proof fn lemma_replace_by_whole_match(e: SpecExpression, input: Seq<char>)
    ensures
        replace_all_spec(e, seq!['$', '0'], input) == input,
{
    lemma_find_all_in_order(e, input, 0);
    lemma_splice_whole(input, find_all_from(e, input, 0), 0);
    assert(input.subrange(0, input.len() as int) =~= input);
}

proof fn lemma_splice_whole(input: Seq<char>, found: Seq<(nat, SpecState)>, from: nat)
    requires
        matches_in_order(found, from, input),
        from <= input.len(),
    ensures
        splice_matches(input, found, seq!['$', '0'], from) == input.subrange(from as int, input.len() as int),
    decreases found.len(),
{
    if found.len() > 0 {
        let (s, st) = found[0];
        let t = seq!['$', '0'];
        let text = input.subrange(s as int, st.pos as int);
        assert(t.skip(2) =~= Seq::<char>::empty());
        assert(t[0] == '$' && t[1] == '0' && t.len() == 2);
        assert(render(t.skip(2), text, st.caps) =~= Seq::<char>::empty());
        assert(render(t, text, st.caps) =~= text);
        let rest = found.drop_first();
        assert(found[0].0 <= found[0].1.pos);
        assert(matches_in_order(rest, st.pos, input)) by {
            assert forall|i: int| 0 <= i < rest.len() implies st.pos <= #[trigger] rest[i].0 <= rest[i].1.pos
                <= input.len() && captures_sorted(rest[i].1.caps) by {
                assert(rest[i] == found[i + 1]);
                assert(found[0].1.pos <= found[i + 1].0);
            }
            assert forall|i: int, j: int| 0 <= i < j < rest.len() implies #[trigger] rest[i].1.pos
                <= #[trigger] rest[j].0 by {
                assert(rest[i] == found[i + 1]);
                assert(rest[j] == found[j + 1]);
                assert(found[i + 1].1.pos <= found[j + 1].0);
            }
            assert forall|i: int| 0 <= i < rest.len() - 1 && #[trigger] rest[i].0 == rest[i].1.pos implies rest[i].1.pos
                < rest[i + 1].0 by {
                assert(rest[i] == found[i + 1]);
                assert(rest[i + 1] == found[i + 2]);
                assert(found[i + 1].0 == found[i + 1].1.pos);
            }
        }
        lemma_splice_whole(input, rest, st.pos);
        assert(input.subrange(from as int, s as int) + text + input.subrange(st.pos as int, input.len() as int)
            =~= input.subrange(from as int, input.len() as int));
    }
}

} // verus!
