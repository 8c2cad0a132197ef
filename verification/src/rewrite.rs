//! Rewriting: ordered rules applied one match at a time until no rule applies,
//! a terminal rule has applied, or the step budget is spent.
use vstd::prelude::*;
use crate::engine::{append_range, render, render_replacement};
use crate::expression::{Expression, SpecExpression};
use crate::matcher::{SpecState, find_at, find_from, lemma_find_at_within, slice_chars};
use crate::parser::{GrammarError, SpecError, error_is, parse, parse_spec};
use crate::text::{chars_of, string_of};

verus! {

/// A rewrite rule: replace the first match of `pattern` by `replacement`; a
/// terminal rule ends the rewriting once it has applied.
#[derive(Clone, Debug, PartialEq, Eq)]
pub struct RewriteRule {
    pub pattern: String,
    pub replacement: String,
    pub terminal: bool,
}

impl RewriteRule {
    /// A rule after which rewriting goes on.
    #[must_use]
    pub fn new(pattern: &str, replacement: &str) -> (r: Self)
        ensures
            r.pattern@ == pattern@,
            r.replacement@ == replacement@,
            !r.terminal,
    {
        RewriteRule { pattern: pattern.to_owned(), replacement: replacement.to_owned(), terminal: false }
    }

    /// A rule that ends the rewriting once it has applied.
    #[must_use]
    pub fn terminal(pattern: &str, replacement: &str) -> (r: Self)
        ensures
            r.pattern@ == pattern@,
            r.replacement@ == replacement@,
            r.terminal,
    {
        RewriteRule { pattern: pattern.to_owned(), replacement: replacement.to_owned(), terminal: true }
    }
}

/// The outcome of a rewriting: the text, the number of rules applied, whether a
/// terminal rule ended it, and whether the step budget ran out while a rule
/// still applied.
#[derive(Clone, Debug, PartialEq, Eq)]
pub struct RewriteResult {
    pub output: String,
    pub steps: usize,
    pub terminated: bool,
    pub max_steps_reached: bool,
}

/// A rule in the grammar: its expression, its replacement template, and whether it is terminal.
pub type SpecRule = (SpecExpression, Seq<char>, bool);

/// The rules of `rules`, with their patterns parsed, or the first pattern error.
pub open spec fn compile_spec(rules: Seq<RewriteRule>) -> Result<Seq<SpecRule>, SpecError>
    decreases rules.len(),
{
    if rules.len() == 0 {
        Ok(Seq::empty())
    } else {
        match parse_spec(rules[0].pattern@) {
            Err(e) => Err(e),
            Ok(x) => match compile_spec(rules.drop_first()) {
                Err(e) => Err(e),
                Ok(rest) => Ok(seq![(x, rules[0].replacement@, rules[0].terminal)] + rest),
            },
        }
    }
}

/// The first rule from the `i`-th on that matches somewhere in `text`, with its
/// leftmost match: the rule's index, the match's start, and the state it reaches.
pub open spec fn first_applicable(rules: Seq<SpecRule>, text: Seq<char>, i: nat) -> Option<(nat, nat, SpecState)>
    decreases rules.len() - i,
{
    if i >= rules.len() {
        None
    } else {
        match find_at(rules[i as int].0, text, 0) {
            Some((s, st)) => Some((i, s, st)),
            None => first_applicable(rules, text, i + 1),
        }
    }
}

/// The applicable rule found is one of the rules, and its match is the leftmost
/// match of that rule.
pub proof fn lemma_first_applicable(rules: Seq<SpecRule>, text: Seq<char>, i: nat)
    ensures
        first_applicable(rules, text, i) matches Some((k, s, st)) ==> i <= k < rules.len() && find_at(
            rules[k as int].0,
            text,
            0,
        ) == Some((s, st)),
    decreases rules.len() - i,
{
    if i < rules.len() && find_at(rules[i as int].0, text, 0) is None {
        lemma_first_applicable(rules, text, i + 1);
    }
}

/// `text` with the match from `start` to `st` replaced by what `template` renders for it.
pub open spec fn apply_match(text: Seq<char>, template: Seq<char>, start: nat, st: SpecState) -> Seq<char> {
    text.take(start as int) + render(template, text.subrange(start as int, st.pos as int), st.caps)
        + text.skip(st.pos as int)
}

/// Rewriting `text` after `steps` steps: the final text, the number of steps,
/// and whether a terminal rule ended it.
pub open spec fn rewrite_run(rules: Seq<SpecRule>, text: Seq<char>, steps: nat, max_steps: nat) -> (Seq<char>, nat, bool)
    decreases max_steps - steps,
{
    if steps >= max_steps {
        (text, steps, false)
    } else {
        match first_applicable(rules, text, 0) {
            None => (text, steps, false),
            Some((i, s, st)) => {
                let next = apply_match(text, rules[i as int].1, s, st);
                if rules[i as int].2 {
                    (next, steps + 1, true)
                } else {
                    rewrite_run(rules, next, steps + 1, max_steps)
                }
            },
        }
    }
}

/// `r` is the outcome of rewriting `input` with `rules` in at most `max_steps` steps.
pub open spec fn rewrite_outcome(r: RewriteResult, rules: Seq<SpecRule>, input: Seq<char>, max_steps: nat) -> bool {
    let (text, steps, terminated) = rewrite_run(rules, input, 0, max_steps);
    &&& r.output@ == text
    &&& r.steps == steps
    &&& r.terminated == terminated
    &&& r.max_steps_reached == (!terminated && steps == max_steps && max_steps > 0 && first_applicable(
        rules,
        text,
        0,
    ) is Some)
}

/// Rewriting takes at most `max_steps` steps; before the budget is spent it
/// stops only after a terminal rule or when no rule applies; with no budget left
/// the text stays as it is.
pub proof fn lemma_rewrite_run(rules: Seq<SpecRule>, text: Seq<char>, steps: nat, max_steps: nat)
    requires
        steps <= max_steps,
    ensures
        ({
            let (out, n, terminated) = rewrite_run(rules, text, steps, max_steps);
            &&& steps <= n <= max_steps
            &&& terminated ==> n > steps
            &&& !terminated && n < max_steps ==> first_applicable(rules, out, 0) is None
            &&& steps == max_steps ==> out == text && n == steps && !terminated
        }),
    decreases max_steps - steps,
{
    if steps < max_steps {
        match first_applicable(rules, text, 0) {
            None => {},
            Some((i, s, st)) => {
                if !rules[i as int].2 {
                    lemma_rewrite_run(rules, apply_match(text, rules[i as int].1, s, st), steps + 1, max_steps);
                }
            },
        }
    }
}

/// Of a rewriting: it takes at most the budget; it runs out of the budget only
/// when it was not ended by a terminal rule; and when it neither was ended by a
/// terminal rule nor ran out of a positive budget, no rule applies to its output.
pub proof fn lemma_rewrite_outcome(r: RewriteResult, rules: Seq<SpecRule>, input: Seq<char>, max_steps: nat)
    requires
        rewrite_outcome(r, rules, input, max_steps),
    ensures
        r.steps <= max_steps,
        r.max_steps_reached ==> r.steps == max_steps && !r.terminated,
        r.terminated ==> !r.max_steps_reached && r.steps > 0,
        !r.terminated && !r.max_steps_reached && max_steps > 0 ==> first_applicable(rules, r.output@, 0) is None,
        max_steps == 0 ==> r.output@ == input && r.steps == 0 && !r.terminated && !r.max_steps_reached,
{
    lemma_rewrite_run(rules, input, 0, max_steps);
}

/// One step: with a budget of one, either no rule applies and the text stays,
/// or the first rule that matches rewrites its leftmost match, and the
/// rewriting has ended by a terminal rule exactly when that rule is terminal.
pub proof fn lemma_rewrite_one_step(r: RewriteResult, rules: Seq<SpecRule>, input: Seq<char>)
    requires
        rewrite_outcome(r, rules, input, 1),
    ensures
        match first_applicable(rules, input, 0) {
            None => r.output@ == input && r.steps == 0 && !r.terminated && !r.max_steps_reached,
            Some((i, s, st)) => {
                &&& r.output@ == apply_match(input, rules[i as int].1, s, st)
                &&& r.steps == 1
                &&& r.terminated == rules[i as int].2
            },
        },
{
    lemma_first_applicable(rules, input, 0);
    match first_applicable(rules, input, 0) {
        None => {},
        Some((i, s, st)) => {
            let next = apply_match(input, rules[i as int].1, s, st);
            assert(rewrite_run(rules, next, 1, 1) == (next, 1nat, false));
            assert(rewrite_run(rules, input, 0, 1) == (next, 1nat, rules[i as int].2));
        },
    }
}

/// Shifting the step counter: rewriting from `steps + d` with budget
/// `max_steps + d` is rewriting from `steps` with budget `max_steps`, its count
/// shifted by `d`.
proof fn lemma_rewrite_run_shift(rules: Seq<SpecRule>, text: Seq<char>, steps: nat, max_steps: nat, d: nat)
    ensures
        ({
            let (t, n, term) = rewrite_run(rules, text, steps, max_steps);
            rewrite_run(rules, text, steps + d, max_steps + d) == (t, n + d, term)
        }),
    decreases max_steps - steps,
{
    if steps < max_steps {
        match first_applicable(rules, text, 0) {
            None => {},
            Some((i, s, st)) => {
                if !rules[i as int].2 {
                    lemma_rewrite_run_shift(rules, apply_match(text, rules[i as int].1, s, st), steps + 1, max_steps, d);
                }
            },
        }
    }
}

/// A rewriting that spends its whole budget without a terminal rule can go on
/// from where it stopped with more budget.
proof fn lemma_rewrite_run_extend(rules: Seq<SpecRule>, text: Seq<char>, steps: nat, n: nat, m: nat)
    requires
        steps <= n,
        rewrite_run(rules, text, steps, n).1 == n,
        !rewrite_run(rules, text, steps, n).2,
    ensures
        rewrite_run(rules, text, steps, n + m) == rewrite_run(rules, rewrite_run(rules, text, steps, n).0, n, n + m),
    decreases n - steps,
{
    if steps < n {
        match first_applicable(rules, text, 0) {
            None => {},
            Some((i, s, st)) => {
                if !rules[i as int].2 {
                    lemma_rewrite_run_extend(rules, apply_match(text, rules[i as int].1, s, st), steps + 1, n, m);
                }
            },
        }
    }
}

/// Splitting the budget: when a rewriting with budget `n` spends it all without
/// a terminal rule, going on from its output with budget `m` gives what a
/// single rewriting with budget `n + m` gives.
pub proof fn lemma_rewrite_split_budget(
    rules: Seq<SpecRule>,
    input: Seq<char>,
    n: nat,
    m: nat,
    first: RewriteResult,
    second: RewriteResult,
    whole: RewriteResult,
)
    requires
        rewrite_outcome(first, rules, input, n),
        !first.terminated,
        first.steps == n,
        rewrite_outcome(second, rules, first.output@, m),
        rewrite_outcome(whole, rules, input, n + m),
    ensures
        whole.output@ == second.output@,
        whole.steps == n + second.steps,
        whole.terminated == second.terminated,
        whole.max_steps_reached == (second.max_steps_reached || (m == 0 && first.max_steps_reached)),
{
    lemma_rewrite_run_extend(rules, input, 0, n, m);
    lemma_rewrite_run_shift(rules, first.output@, 0, m, n);
}

/// A rule with its pattern parsed.
struct CompiledRule {
    expression: Expression,
    replacement: Vec<char>,
    terminal: bool,
}

impl View for CompiledRule {
    type V = SpecRule;

    closed spec fn view(&self) -> SpecRule {
        (self.expression@, self.replacement@, self.terminal)
    }
}

/// The models of a list of compiled rules.
spec fn rules_view(rules: Seq<CompiledRule>) -> Seq<SpecRule> {
    rules.map_values(|r: CompiledRule| r@)
}

/// `input[..start] + replacement + input[end..]`.
fn replace_match_once(input: &Vec<char>, start: usize, end: usize, replacement: &Vec<char>) -> (r: Vec<char>)
    requires
        start <= end <= input.len(),
    ensures
        r@ == input@.take(start as int) + replacement@ + input@.skip(end as int),
{
    let mut output: Vec<char> = Vec::new();
    append_range(&mut output, input, 0, start);
    append_range(&mut output, replacement, 0, replacement.len());
    append_range(&mut output, input, end, input.len());
    assert(output@ =~= input@.take(start as int) + replacement@ + input@.skip(end as int));
    output
}

/// The first applicable rule from the `from`-th on, with its leftmost match.
fn find_applicable(rules: &Vec<CompiledRule>, text: &Vec<char>, from: usize) -> (r: Option<(usize, usize, crate::matcher::State)>)
    ensures
        match first_applicable(rules_view(rules@), text@, from as nat) {
            None => r is None,
            Some((i, s, st)) => r matches Some((i2, s2, st2)) && i2 == i && s2 == s && st2@ == st,
        },
{
    let ghost rv = rules_view(rules@);
    let mut k = from;
    while k < rules.len()
        invariant
            from <= k,
            rv == rules_view(rules@),
            first_applicable(rv, text@, k as nat) == first_applicable(rv, text@, from as nat),
        decreases rules.len() - k,
    {
        assert(rv[k as int] == rules@[k as int]@);
        match find_from(&rules[k].expression, text, 0) {
            Some((start, state)) => {
                return Some((k, start, state));
            },
            None => {},
        }
        k = k + 1;
    }
    None
}

/// Rewrites `input` with already compiled rules.
fn rewrite_compiled(rules: &Vec<CompiledRule>, input: Vec<char>, max_steps: usize) -> (r: RewriteResult)
    ensures
        rewrite_outcome(r, rules_view(rules@), input@, max_steps as nat),
{
    let ghost rv = rules_view(rules@);
    let ghost goal = rewrite_run(rv, input@, 0, max_steps as nat);
    let mut output = input;
    let mut steps: usize = 0;
    let mut terminated = false;
    while steps < max_steps
        invariant_except_break
            rewrite_run(rv, output@, steps as nat, max_steps as nat) == goal,
            !terminated,
        invariant
            rv == rules_view(rules@),
            steps <= max_steps,
            goal == rewrite_run(rv, input@, 0, max_steps as nat),
        ensures
            goal == (output@, steps as nat, terminated),
        decreases max_steps - steps,
    {
        let ghost before = output@;
        match find_applicable(rules, &output, 0) {
            None => {
                break;
            },
            Some((k, start, state)) => {
                proof {
                    lemma_first_applicable(rv, before, 0);
                    lemma_find_at_within(rv[k as int].0, before, 0);
                }
                assert(rv[k as int] == rules@[k as int]@);
                let text = slice_chars(&output, start, state.pos);
                let rendered = render_replacement(&rules[k].replacement, &text, &state.captures);
                output = replace_match_once(&output, start, state.pos, &rendered);
                steps = steps + 1;
                if rules[k].terminal {
                    terminated = true;
                    break;
                }
            },
        }
    }
    let reached = !terminated && steps == max_steps && max_steps > 0 && find_applicable(
        rules,
        &output,
        0,
    ).is_some();
    RewriteResult { output: string_of(&output), steps, terminated, max_steps_reached: reached }
}

/// Rewrites `input` with `rules`, in order of preference, for at most
/// `max_steps` steps; reports the first pattern error among the rules.
pub fn rewrite(rules: &[RewriteRule], input: &str, max_steps: usize) -> (r: Result<RewriteResult, GrammarError>)
    ensures
        match compile_spec(rules@) {
            Err(e) => r matches Err(g) && error_is(g, e),
            Ok(specs) => r matches Ok(res) && rewrite_outcome(res, specs, input@, max_steps as nat),
        },
{
    let ghost all = rules@;
    let mut compiled: Vec<CompiledRule> = Vec::new();
    let mut i: usize = 0;
    assert(all.skip(0) =~= all);
    while i < rules.len()
        invariant
            i <= rules.len(),
            all == rules@,
            compile_spec(all) == match compile_spec(all.skip(i as int)) {
                Err(e) => Err(e),
                Ok(rest) => Ok(rules_view(compiled@) + rest),
            },
        decreases rules.len() - i,
    {
        assert(all.skip(i as int)[0] == all[i as int]);
        assert(all.skip(i as int).drop_first() =~= all.skip(i + 1));
        let expression = match parse(rules[i].pattern.as_str()) {
            Ok(e) => e,
            Err(e) => return Err(e),
        };
        let rule = CompiledRule {
            expression,
            replacement: chars_of(rules[i].replacement.as_str()),
            terminal: rules[i].terminal,
        };
        let ghost prev = rules_view(compiled@);
        compiled.push(rule);
        assert(rules_view(compiled@) =~= prev.push(rule@));
        proof {
            match compile_spec(all.skip(i + 1)) {
                Err(e) => {},
                Ok(rest) => {
                    assert(prev + (seq![rule@] + rest) =~= prev.push(rule@) + rest);
                },
            }
        }
        i = i + 1;
    }
    assert(all.skip(i as int) =~= Seq::<RewriteRule>::empty());
    assert(rules_view(compiled@) + Seq::<SpecRule>::empty() =~= rules_view(compiled@));
    Ok(rewrite_compiled(&compiled, chars_of(input), max_steps))
}

} // verus!
