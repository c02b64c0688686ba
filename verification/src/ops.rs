//! The binary connectives of the expression language.

use vstd::prelude::*;

verus! {

/// A binary logical connective joining two sub-expressions.
///
/// Each connective has a canonical single-character symbol (`&`, `|`) and a
/// canonical lowercase keyword (`and`, `or`); the lexer accepts both
/// spellings interchangeably.
#[derive(Debug, Copy, Clone, PartialEq, Eq, Structural)]
pub enum BinaryOp {
    And,
    Or,
}

/// The canonical symbol of a connective.
pub open spec fn symbol_char(op: BinaryOp) -> char {
    match op {
        BinaryOp::And => '&',
        BinaryOp::Or => '|',
    }
}

/// The connective a single symbol character denotes, if any.
pub open spec fn spec_from_char(c: char) -> Option<BinaryOp> {
    if c == '&' {
        Some(BinaryOp::And)
    } else if c == '|' {
        Some(BinaryOp::Or)
    } else {
        None
    }
}

/// The connective an exact lowercase keyword denotes, if any.
pub open spec fn spec_from_text(t: Seq<char>) -> Option<BinaryOp> {
    if t == seq!['a', 'n', 'd'] {
        Some(BinaryOp::And)
    } else if t == seq!['o', 'r'] {
        Some(BinaryOp::Or)
    } else {
        None
    }
}

impl BinaryOp {
    /// The canonical symbol of this connective.
    pub fn as_char(self) -> (c: char)
        ensures
            c == symbol_char(self),
    {
        match self {
            Self::And => '&',
            Self::Or => '|',
        }
    }

    /// Recognize a connective from its symbol character.
    pub fn from_char(c: char) -> (r: Option<Self>)
        ensures
            r == spec_from_char(c),
    {
        match c {
            '&' => Some(Self::And),
            '|' => Some(Self::Or),
            _ => None,
        }
    }

    /// Recognize a connective from its exact lowercase keyword.
    pub fn from_text(text: &str) -> (r: Option<Self>)
        ensures
            r == spec_from_text(text@),
    {
        let n = text.unicode_len();
        if n == 3 {
            if text.get_char(0) == 'a' && text.get_char(1) == 'n' && text.get_char(2) == 'd' {
                proof {
                    assert(text@ =~= seq!['a', 'n', 'd']);
                }
                Some(Self::And)
            } else {
                proof {
                    assert(text@ != seq!['a', 'n', 'd']);
                    assert(text@ != seq!['o', 'r']);
                }
                None
            }
        } else if n == 2 {
            if text.get_char(0) == 'o' && text.get_char(1) == 'r' {
                proof {
                    assert(text@ =~= seq!['o', 'r']);
                }
                Some(Self::Or)
            } else {
                proof {
                    assert(text@ != seq!['a', 'n', 'd']);
                    assert(text@ != seq!['o', 'r']);
                }
                None
            }
        } else {
            None
        }
    }
}

} // verus!
