//! Grammar expressions: the executable tree that the parser builds, and its
//! mathematical model.
use vstd::prelude::*;

verus! {

/// A grammar expression. (`Clone` is implemented by hand below: a derived
/// `Clone` through `Box<Expression>` makes a cycle that Verus refuses.)
#[derive(Debug, PartialEq, Eq)]
pub enum Expression {
    Empty,
    Literal(char),
    Any,
    Class(CharacterClass),
    Sequence(Vec<Expression>),
    Choice(Vec<Expression>),
    Repeat { expression: Box<Expression>, min: usize, max: Option<usize> },
    Capture { name: String, expression: Box<Expression> },
}

/// A character class such as `[A-Za-z]` or `[^0-9]`.
#[derive(Clone, Debug, PartialEq, Eq)]
pub struct CharacterClass {
    ranges: Vec<(char, char)>,
    inverted: bool,
}

impl View for CharacterClass {
    type V = (Seq<(char, char)>, bool);

    /// The ranges of the class, and whether it is inverted.
    closed spec fn view(&self) -> (Seq<(char, char)>, bool) {
        (self.ranges@, self.inverted)
    }
}

/// The mathematical model of an [`Expression`].
pub enum SpecExpression {
    Empty,
    Literal(char),
    Any,
    Class { ranges: Seq<(char, char)>, inverted: bool },
    Sequence(Seq<SpecExpression>),
    Choice(Seq<SpecExpression>),
    Repeat { expression: Box<SpecExpression>, min: usize, max: Option<usize> },
    Capture { name: Seq<char>, expression: Box<SpecExpression> },
}

/// The model of an expression.
pub open spec fn expr_view(e: Expression) -> SpecExpression
    decreases e,
{
    match e {
        Expression::Empty => SpecExpression::Empty,
        Expression::Literal(c) => SpecExpression::Literal(c),
        Expression::Any => SpecExpression::Any,
        Expression::Class(class) => SpecExpression::Class { ranges: class@.0, inverted: class@.1 },
        Expression::Sequence(items) => SpecExpression::Sequence(exprs_view(items@)),
        Expression::Choice(items) => SpecExpression::Choice(exprs_view(items@)),
        Expression::Repeat { expression, min, max } => SpecExpression::Repeat {
            expression: Box::new(expr_view(*expression)),
            min,
            max,
        },
        Expression::Capture { name, expression } => SpecExpression::Capture {
            name: name@,
            expression: Box::new(expr_view(*expression)),
        },
    }
}

/// The models of a list of expressions.
pub open spec fn exprs_view(items: Seq<Expression>) -> Seq<SpecExpression>
    decreases items,
{
    if items.len() == 0 {
        Seq::empty()
    } else {
        exprs_view(items.drop_last()).push(expr_view(items.last()))
    }
}

impl View for Expression {
    type V = SpecExpression;

    open spec fn view(&self) -> SpecExpression {
        expr_view(*self)
    }
}

/// The models of a list are the models of its items, in order.
pub proof fn lemma_exprs_view(items: Seq<Expression>)
    ensures
        exprs_view(items).len() == items.len(),
        forall|i: int| 0 <= i < items.len() ==> #[trigger] exprs_view(items)[i] == expr_view(items[i]),
    decreases items.len(),
{
    if items.len() > 0 {
        lemma_exprs_view(items.drop_last());
        assert forall|i: int| 0 <= i < items.len() implies #[trigger] exprs_view(items)[i] == expr_view(
            items[i],
        ) by {
            if i < items.len() - 1 {
                assert(items.drop_last()[i] == items[i]);
            }
        }
    }
}

/// The model of a vector of expressions, built item by item.
pub proof fn lemma_exprs_view_push(items: Seq<Expression>, e: Expression)
    ensures
        exprs_view(items.push(e)) == exprs_view(items).push(expr_view(e)),
{
    assert(items.push(e).drop_last() =~= items);
}

/// Whether a character class admits `c`: `c` lies in one of the ranges, unless
/// the class is inverted, in which case it lies in none of them.
pub open spec fn class_contains(ranges: Seq<(char, char)>, inverted: bool, c: char) -> bool {
    (exists|i: int| 0 <= i < ranges.len() && ranges[i].0 <= c && c <= #[trigger] ranges[i].1)
        != inverted
}

impl Clone for Expression {
    fn clone(&self) -> (r: Self)
        ensures
            r@ == self@,
    {
        copy_expression(self)
    }
}

/// A copy of `e`.
fn copy_expression(e: &Expression) -> (r: Expression)
    ensures
        r@ == e@,
    decreases e, 1int,
{
    match e {
        Expression::Empty => Expression::Empty,
        Expression::Literal(c) => Expression::Literal(*c),
        Expression::Any => Expression::Any,
        Expression::Class(class) => Expression::Class(class.copy()),
        Expression::Sequence(items) => Expression::Sequence(copy_expressions(items)),
        Expression::Choice(items) => Expression::Choice(copy_expressions(items)),
        Expression::Repeat { expression, min, max } => {
            proof {
                assert(decreases_to!(*e => **expression));
            }
            Expression::Repeat { expression: Box::new(copy_expression(expression)), min: *min, max: *max }
        },
        Expression::Capture { name, expression } => {
            proof {
                assert(decreases_to!(*e => **expression));
            }
            Expression::Capture { name: name.clone(), expression: Box::new(copy_expression(expression)) }
        },
    }
}

/// Copies of `items`.
fn copy_expressions(items: &Vec<Expression>) -> (r: Vec<Expression>)
    ensures
        exprs_view(r@) == exprs_view(items@),
    decreases items, 0int,
{
    let mut r: Vec<Expression> = Vec::new();
    let mut i: usize = 0;
    while i < items.len()
        invariant
            i <= items.len(),
            exprs_view(r@) == exprs_view(items@.take(i as int)),
        decreases items.len() - i,
    {
        proof {
            assert(decreases_to!(*items => items@[i as int]));
        }
        let item = copy_expression(&items[i]);
        proof {
            lemma_exprs_view_push(r@, item);
            lemma_exprs_view_push(items@.take(i as int), items@[i as int]);
            assert(items@.take(i as int).push(items@[i as int]) =~= items@.take(i + 1));
        }
        r.push(item);
        i = i + 1;
    }
    assert(items@.take(items.len() as int) =~= items@);
    r
}

impl Expression {
    /// The expression matching exactly the character `c`.
    pub(crate) fn literal(c: char) -> (e: Expression)
        ensures
            e@ == SpecExpression::Literal(c),
    {
        Expression::Literal(c)
    }
}

impl CharacterClass {
    /// The class of the characters in `ranges`, or of those outside them when `inverted`.
    pub(crate) fn new(ranges: Vec<(char, char)>, inverted: bool) -> (class: Self)
        ensures
            class@ == (ranges@, inverted),
    {
        CharacterClass { ranges, inverted }
    }

    /// A copy of the class.
    pub(crate) fn copy(&self) -> (r: Self)
        ensures
            r@ == self@,
    {
        let mut ranges: Vec<(char, char)> = Vec::new();
        let mut i: usize = 0;
        while i < self.ranges.len()
            invariant
                i <= self.ranges.len(),
                ranges@ == self.ranges@.take(i as int),
            decreases self.ranges.len() - i,
        {
            ranges.push(self.ranges[i]);
            i = i + 1;
            assert(ranges@ =~= self.ranges@.take(i as int));
        }
        assert(self.ranges@.take(self.ranges.len() as int) =~= self.ranges@);
        CharacterClass { ranges, inverted: self.inverted }
    }

    /// Whether the class admits `value`.
    pub(crate) fn contains(&self, value: char) -> (r: bool)
        ensures
            r == class_contains(self@.0, self@.1, value),
    {
        let mut matched = false;
        let mut i: usize = 0;
        while i < self.ranges.len()
            invariant
                i <= self.ranges.len(),
                matched == exists|j: int|
                    0 <= j < i && self.ranges@[j].0 <= value && value <= #[trigger] self.ranges@[j].1,
            decreases self.ranges.len() - i,
        {
            let (start, end) = self.ranges[i];
            if start <= value && value <= end {
                matched = true;
            }
            i = i + 1;
        }
        matched != self.inverted
    }
}

} // verus!
