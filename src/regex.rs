//! The expression tree that parsing produces and compilation consumes.
use vstd::prelude::*;

verus! {

/// A regular expression over letters and digits.
#[derive(Debug, PartialEq, Eq)]
pub enum RegexExpr {
    /// Exactly the one character.
    SingleChar(char),
    /// Zero or more repetitions of the inner expression.
    Star(Box<RegexExpr>),
    /// The left expression followed by the right one.
    Concat(Box<RegexExpr>, Box<RegexExpr>),
    /// Either expression.
    Or(Box<RegexExpr>, Box<RegexExpr>),
}

/// An upper or lower case English letter or a decimal digit.
pub open spec fn is_symbol(c: char) -> bool {
    ('a' <= c && c <= 'z') || ('A' <= c && c <= 'Z') || ('0' <= c && c <= '9')
}

/// Tests `is_symbol`.
pub fn is_symbol_char(c: char) -> (r: bool)
    ensures
        r == is_symbol(c),
{
    ('a' <= c && c <= 'z') || ('A' <= c && c <= 'Z') || ('0' <= c && c <= '9')
}

impl RegexExpr {
    /// The number of nodes of the tree.
    pub open spec fn size(self) -> nat
        decreases self,
    {
        match self {
            RegexExpr::SingleChar(_) => 1,
            RegexExpr::Star(e) => 1 + e.size(),
            RegexExpr::Concat(l, r) => 1 + l.size() + r.size(),
            RegexExpr::Or(l, r) => 1 + l.size() + r.size(),
        }
    }
}

} // verus!
