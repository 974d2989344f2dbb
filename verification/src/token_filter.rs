//! The token filter that decides which tokens take part in the co-occurrence
//! record: special-white always, special-black, whitespace and symbols never,
//! the remaining classes by configuration.

use vstd::prelude::*;
use crate::token::{Token, Kind};

verus! {

/// Whether a token of the given tag is retained under the given flags.
pub open spec fn passes(alphabetic: bool, numeric: bool, impure: bool, k: Kind) -> bool {
    match k {
        Kind::Alphabetic => alphabetic,
        Kind::Numeric => numeric,
        Kind::Impure => impure,
        Kind::Symbolic => false,
        Kind::Whitespace => false,
        Kind::SpecialBlack => false,
        Kind::SpecialWhite => true,
    }
}

/// A token filter driven by a predicate per token tag.
pub trait TokenFilter {
    fn token_filter(&self, tok: &Token) -> bool;
}

/// The configured filter: three flags for the three filterable tags.
pub struct StaticFilter {
    alphabetic: bool,
    numeric: bool,
    impure: bool,
}

impl StaticFilter {
    pub closed spec fn alphabetic_flag(&self) -> bool {
        self.alphabetic
    }

    pub closed spec fn numeric_flag(&self) -> bool {
        self.numeric
    }

    pub closed spec fn impure_flag(&self) -> bool {
        self.impure
    }

    pub fn with(alphabetic: bool, numeric: bool, impure: bool) -> (r: StaticFilter)
        ensures
            r.alphabetic_flag() == alphabetic,
            r.numeric_flag() == numeric,
            r.impure_flag() == impure,
    {
        StaticFilter { alphabetic, numeric, impure }
    }

    /// Whether the token is retained.
    pub fn retains(&self, tok: &Token) -> (r: bool)
        ensures
            r == passes(self.alphabetic_flag(), self.numeric_flag(), self.impure_flag(), tok@.kind),
    {
        match tok {
            Token::Alphabetic(_) => self.alphabetic,
            Token::Numeric(_) => self.numeric,
            Token::Impure(_) => self.impure,
            Token::Symbolic(_) => false,
            Token::Whitespace(_) => false,
            Token::SpecialBlack(_) => false,
            Token::SpecialWhite(_) => true,
        }
    }
}

impl TokenFilter for StaticFilter {
    fn token_filter(&self, tok: &Token) -> bool {
        self.retains(tok)
    }
}

} // verus!
