//! Typed message tokens. A token is a tagged slice of a message; it compares
//! by tag and text.

use vstd::prelude::*;
use crate::chars::{alphabetic_of, numeric_of, whitespace_of, char_is_alphabetic, char_is_numeric,
    char_is_whitespace};

verus! {

/// The tag of a token.
#[derive(Debug, Clone, Copy, PartialEq, Eq, Structural)]
pub enum Kind {
    Alphabetic,
    Numeric,
    Symbolic,
    Whitespace,
    Impure,
    SpecialWhite,
    SpecialBlack,
}

/// The mathematical value of a token: its tag and its text.
pub struct TokenV {
    pub kind: Kind,
    pub text: Seq<char>,
}

/// A typed slice of a message.
#[derive(Debug, Clone, PartialEq, Eq)]
pub enum Token {
    Alphabetic(String),
    Numeric(String),
    Symbolic(String),
    Whitespace(String),
    Impure(String),
    SpecialWhite(String),
    SpecialBlack(String),
}

impl View for Token {
    type V = TokenV;

    open spec fn view(&self) -> TokenV {
        match self {
            Token::Alphabetic(s) => TokenV { kind: Kind::Alphabetic, text: s@ },
            Token::Numeric(s) => TokenV { kind: Kind::Numeric, text: s@ },
            Token::Symbolic(s) => TokenV { kind: Kind::Symbolic, text: s@ },
            Token::Whitespace(s) => TokenV { kind: Kind::Whitespace, text: s@ },
            Token::Impure(s) => TokenV { kind: Kind::Impure, text: s@ },
            Token::SpecialWhite(s) => TokenV { kind: Kind::SpecialWhite, text: s@ },
            Token::SpecialBlack(s) => TokenV { kind: Kind::SpecialBlack, text: s@ },
        }
    }
}

/// The views of a token sequence.
pub open spec fn views_of(ts: Seq<Token>) -> Seq<TokenV> {
    ts.map_values(|t: Token| t@)
}

/// The concatenation of the texts of a token-value sequence.
pub open spec fn texts_concat(ts: Seq<TokenV>) -> Seq<char>
    decreases ts.len(),
{
    if ts.len() == 0 {
        Seq::empty()
    } else {
        ts[0].text + texts_concat(ts.drop_first())
    }
}

pub proof fn lemma_texts_concat_concat(a: Seq<TokenV>, b: Seq<TokenV>)
    ensures
        texts_concat(a + b) == texts_concat(a) + texts_concat(b),
    decreases a.len(),
{
    if a.len() == 0 {
        assert(a + b =~= b);
        assert(texts_concat(a) + texts_concat(b) =~= texts_concat(b));
    } else {
        assert((a + b).drop_first() =~= a.drop_first() + b);
        lemma_texts_concat_concat(a.drop_first(), b);
        assert(texts_concat(a + b) =~= texts_concat(a) + texts_concat(b));
    }
}

/// Every character of `s` is alphabetic.
pub open spec fn all_alphabetic(s: Seq<char>) -> bool {
    forall|i: int| 0 <= i < s.len() ==> alphabetic_of(#[trigger] s[i])
}

/// Every character of `s` is numeric.
pub open spec fn all_numeric(s: Seq<char>) -> bool {
    forall|i: int| 0 <= i < s.len() ==> numeric_of(#[trigger] s[i])
}

/// The tag an unrefined slice receives: alphabetic and numeric runs first,
/// then single whitespace or symbol characters, impure otherwise.
pub open spec fn classify(s: Seq<char>, symbols: Seq<char>) -> Kind {
    if all_alphabetic(s) {
        Kind::Alphabetic
    } else if all_numeric(s) {
        Kind::Numeric
    } else if s.len() == 1 {
        if whitespace_of(s[0]) {
            Kind::Whitespace
        } else if symbols.contains(s[0]) {
            Kind::Symbolic
        } else {
            Kind::Impure
        }
    } else {
        Kind::Impure
    }
}

/// Whether `c` is one of the configured symbol characters.
pub fn is_symbol(c: char, symbols: &Vec<char>) -> (r: bool)
    ensures
        r == symbols@.contains(c),
{
    let mut i: usize = 0;
    while i < symbols.len()
        invariant
            0 <= i <= symbols@.len(),
            forall|k: int| 0 <= k < i ==> symbols@[k] != c,
        decreases symbols@.len() - i,
    {
        if symbols[i] == c {
            return true;
        }
        i = i + 1;
    }
    false
}

fn str_all_alphabetic(s: &str) -> (r: bool)
    ensures
        r == all_alphabetic(s@),
{
    let n = s.unicode_len();
    let mut i: usize = 0;
    while i < n
        invariant
            n == s@.len(),
            0 <= i <= n,
            forall|k: int| 0 <= k < i ==> alphabetic_of(#[trigger] s@[k]),
        decreases n - i,
    {
        if !char_is_alphabetic(s.get_char(i)) {
            return false;
        }
        i = i + 1;
    }
    true
}

fn str_all_numeric(s: &str) -> (r: bool)
    ensures
        r == all_numeric(s@),
{
    let n = s.unicode_len();
    let mut i: usize = 0;
    while i < n
        invariant
            n == s@.len(),
            0 <= i <= n,
            forall|k: int| 0 <= k < i ==> numeric_of(#[trigger] s@[k]),
        decreases n - i,
    {
        if !char_is_numeric(s.get_char(i)) {
            return false;
        }
        i = i + 1;
    }
    true
}

impl Token {
    /// Classifies a slice under the configured symbol set.
    pub fn with(slice: &str, symbols: &Vec<char>) -> (r: Token)
        ensures
            r@ == (TokenV { kind: classify(slice@, symbols@), text: slice@ }),
    {
        if str_all_alphabetic(slice) {
            Token::Alphabetic(slice.to_owned())
        } else if str_all_numeric(slice) {
            Token::Numeric(slice.to_owned())
        } else if slice.unicode_len() == 1 {
            let c = slice.get_char(0);
            if char_is_whitespace(c) {
                Token::Whitespace(slice.to_owned())
            } else if is_symbol(c, symbols) {
                Token::Symbolic(slice.to_owned())
            } else {
                Token::Impure(slice.to_owned())
            }
        } else {
            Token::Impure(slice.to_owned())
        }
    }

    /// The token's text.
    pub fn as_str(&self) -> (r: &str)
        ensures
            r@ == self@.text,
    {
        match self {
            Token::Alphabetic(s) => s.as_str(),
            Token::Numeric(s) => s.as_str(),
            Token::Symbolic(s) => s.as_str(),
            Token::Whitespace(s) => s.as_str(),
            Token::Impure(s) => s.as_str(),
            Token::SpecialWhite(s) => s.as_str(),
            Token::SpecialBlack(s) => s.as_str(),
        }
    }

    /// An equal token: same tag, same text.
    pub fn duplicate(&self) -> (r: Token)
        ensures
            r@ == self@,
    {
        match self {
            Token::Alphabetic(s) => Token::Alphabetic(s.clone()),
            Token::Numeric(s) => Token::Numeric(s.clone()),
            Token::Symbolic(s) => Token::Symbolic(s.clone()),
            Token::Whitespace(s) => Token::Whitespace(s.clone()),
            Token::Impure(s) => Token::Impure(s.clone()),
            Token::SpecialWhite(s) => Token::SpecialWhite(s.clone()),
            Token::SpecialBlack(s) => Token::SpecialBlack(s.clone()),
        }
    }

    /// The token's text, as an owned string.
    pub fn text_string(&self) -> (r: String)
        ensures
            r@ == self@.text,
    {
        self.as_str().to_owned()
    }

    /// The token's tag.
    pub fn kind(&self) -> (r: Kind)
        ensures
            r == self@.kind,
    {
        match self {
            Token::Alphabetic(_) => Kind::Alphabetic,
            Token::Numeric(_) => Kind::Numeric,
            Token::Symbolic(_) => Kind::Symbolic,
            Token::Whitespace(_) => Kind::Whitespace,
            Token::Impure(_) => Kind::Impure,
            Token::SpecialWhite(_) => Kind::SpecialWhite,
            Token::SpecialBlack(_) => Kind::SpecialBlack,
        }
    }

    /// Whether two tokens agree in tag and text.
    pub fn same_as(&self, other: &Token) -> (r: bool)
        ensures
            r == (self@ == other@),
    {
        let kind_eq = self.kind() == other.kind();
        let text_eq = self.text_eq(other);
        if kind_eq && text_eq {
            proof {
                assert(self@ =~= other@);
            }
            true
        } else {
            false
        }
    }

    /// Whether two tokens have the same text, whatever their tags.
    pub fn text_eq(&self, other: &Token) -> (r: bool)
        ensures
            r == (self@.text == other@.text),
    {
        crate::chars::str_eq(self.as_str(), other.as_str())
    }
}

} // verus!
