//! Grammar expressions: a small PEG / regular-expression style pattern language
//! with literals, grouping, ordered choice `|`, the wildcard `.`, character
//! classes, the repetitions `*`, `+` and `?`, and named captures
//! `{name:expression}`; with whole matches, searches, capture-aware replacement
//! and rule-based rewriting.
//!
//! Every function here is verified against the grammar of patterns
//! ([`parser`]) and the ordered, backtracking semantics of expressions
//! ([`matcher`]).

pub mod text;
pub mod captures;
pub mod expression;
pub mod matcher;
pub mod engine;
pub mod parser;
pub mod patterns;
pub mod rewrite;

pub use crate::engine::{MatchResult, find_all_expression, match_full_expression, replace_all_expression};
pub use crate::expression::{CharacterClass, Expression};
pub use crate::parser::{GrammarError, parse};
pub use crate::patterns::{find_all, find_first, is_match, match_full, replace_all};
pub use crate::rewrite::{RewriteResult, RewriteRule, rewrite};
pub mod laws;
