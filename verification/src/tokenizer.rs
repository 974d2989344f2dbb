//! The tokenizer: splits a message into typed tokens covering every character
//! exactly once, in input order. Two phases: "special" patterns carve the
//! message into special and unrefined spans; unrefined spans are then split at
//! whitespace and symbol characters and classified.

use vstd::prelude::*;
use crate::chars::whitespace_of;
use crate::pattern::{CompiledPattern, find_of, spans_ordered};
use crate::token::{Token, TokenV, Kind, classify, views_of, texts_concat, is_symbol};

verus! {

/// The mathematical value of a pre-token: a special span kept whole, or an
/// unrefined span awaiting refinement.
pub enum PreTokenV {
    White(Seq<char>),
    Black(Seq<char>),
    Plain(Seq<char>),
}

impl PreTokenV {
    pub open spec fn text(self) -> Seq<char> {
        match self {
            PreTokenV::White(s) => s,
            PreTokenV::Black(s) => s,
            PreTokenV::Plain(s) => s,
        }
    }
}

/// A span produced by the pre-tokenization phase.
#[derive(Debug, Clone, PartialEq, Eq)]
pub enum PreToken {
    SpecialWhite(String),
    SpecialBlack(String),
    Unrefined(String),
}

impl View for PreToken {
    type V = PreTokenV;

    open spec fn view(&self) -> PreTokenV {
        match self {
            PreToken::SpecialWhite(s) => PreTokenV::White(s@),
            PreToken::SpecialBlack(s) => PreTokenV::Black(s@),
            PreToken::Unrefined(s) => PreTokenV::Plain(s@),
        }
    }
}

pub open spec fn pre_views(ps: Seq<PreToken>) -> Seq<PreTokenV> {
    ps.map_values(|p: PreToken| p@)
}

pub open spec fn pre_texts_concat(ps: Seq<PreTokenV>) -> Seq<char>
    decreases ps.len(),
{
    if ps.len() == 0 {
        Seq::empty()
    } else {
        ps[0].text() + pre_texts_concat(ps.drop_first())
    }
}

pub proof fn lemma_pre_texts_concat_concat(a: Seq<PreTokenV>, b: Seq<PreTokenV>)
    ensures
        pre_texts_concat(a + b) == pre_texts_concat(a) + pre_texts_concat(b),
    decreases a.len(),
{
    if a.len() == 0 {
        assert(a + b =~= b);
        assert(pre_texts_concat(a) + pre_texts_concat(b) =~= pre_texts_concat(b));
    } else {
        assert((a + b).drop_first() =~= a.drop_first() + b);
        lemma_pre_texts_concat_concat(a.drop_first(), b);
        assert(pre_texts_concat(a + b) =~= pre_texts_concat(a) + pre_texts_concat(b));
    }
}

pub proof fn lemma_pre_texts_concat_singleton(p: PreTokenV)
    ensures
        pre_texts_concat(seq![p]) == p.text(),
{
    let s = seq![p];
    assert(s[0] == p);
    assert(s.drop_first() =~= Seq::<PreTokenV>::empty());
    assert(pre_texts_concat(Seq::<PreTokenV>::empty()) == Seq::<char>::empty());
    assert(p.text() + Seq::<char>::empty() =~= p.text());
}

pub open spec fn mk_special(white: bool, s: Seq<char>) -> PreTokenV {
    if white {
        PreTokenV::White(s)
    } else {
        PreTokenV::Black(s)
    }
}

/// The pieces an unrefined span `s` splits into, given the match spans of one
/// pattern: unmatched gaps stay unrefined, non-empty matches become special.
/// `k` is the next span to process, `last` the end of what is already emitted.
pub open spec fn split_pieces(
    s: Seq<char>,
    spans: Seq<(usize, usize)>,
    k: int,
    last: int,
    white: bool,
) -> Seq<PreTokenV>
    decreases spans.len() - k,
{
    if k < 0 || k >= spans.len() {
        if last != s.len() {
            seq![PreTokenV::Plain(s.subrange(last, s.len() as int))]
        } else {
            Seq::empty()
        }
    } else {
        let st = spans[k].0 as int;
        let en = spans[k].1 as int;
        if en <= st {
            split_pieces(s, spans, k + 1, last, white)
        } else {
            (if st != last {
                seq![PreTokenV::Plain(s.subrange(last, st))]
            } else {
                Seq::empty()
            }) + seq![mk_special(white, s.subrange(st, en))] + split_pieces(
                s,
                spans,
                k + 1,
                en,
                white,
            )
        }
    }
}

/// How one pattern splits one unrefined span.
pub open spec fn split_special_spec(s: Seq<char>, pat: Seq<char>, white: bool) -> Seq<PreTokenV> {
    split_pieces(s, find_of(pat, s), 0, 0, white)
}

/// The pieces cover exactly the rest of the span, in order.
pub proof fn lemma_split_pieces_concat(
    s: Seq<char>,
    spans: Seq<(usize, usize)>,
    k: int,
    last: int,
    white: bool,
)
    requires
        spans_ordered(spans, s.len() as int),
        0 <= last <= s.len(),
        forall|j: int| k <= j < spans.len() ==> last <= #[trigger] spans[j].0,
    ensures
        pre_texts_concat(split_pieces(s, spans, k, last, white)) == s.subrange(
            last,
            s.len() as int,
        ),
    decreases spans.len() - k,
{
    if k < 0 || k >= spans.len() {
        if last != s.len() {
            lemma_pre_texts_concat_singleton(PreTokenV::Plain(s.subrange(last, s.len() as int)));
        } else {
            assert(s.subrange(last, s.len() as int) =~= Seq::<char>::empty());
        }
    } else {
        let st = spans[k].0 as int;
        let en = spans[k].1 as int;
        if en <= st {
            lemma_split_pieces_concat(s, spans, k + 1, last, white);
        } else {
            assert(last <= st);
            lemma_split_pieces_concat(s, spans, k + 1, en, white);
            let gap: Seq<PreTokenV> = if st != last {
                seq![PreTokenV::Plain(s.subrange(last, st))]
            } else {
                Seq::empty()
            };
            let mid = seq![mk_special(white, s.subrange(st, en))];
            let rest = split_pieces(s, spans, k + 1, en, white);
            lemma_pre_texts_concat_concat(gap, mid + rest);
            lemma_pre_texts_concat_concat(mid, rest);
            if st != last {
                lemma_pre_texts_concat_singleton(PreTokenV::Plain(s.subrange(last, st)));
            } else {
                assert(pre_texts_concat(gap) =~= s.subrange(last, st));
            }
            lemma_pre_texts_concat_singleton(mk_special(white, s.subrange(st, en)));
            assert(pre_texts_concat(gap) =~= s.subrange(last, st));
            assert(pre_texts_concat(mid) =~= s.subrange(st, en));
            assert(split_pieces(s, spans, k, last, white) =~= gap + (mid + rest));
            assert(s.subrange(last, st) + (s.subrange(st, en) + s.subrange(en, s.len() as int))
                =~= s.subrange(last, s.len() as int));
        }
    }
}

/// Splits one unrefined span with one pattern.
pub fn split_special(s: &str, pat: &CompiledPattern, white: bool) -> (r: Vec<PreToken>)
    ensures
        pre_views(r@) == split_special_spec(s@, pat@, white),
        pre_texts_concat(pre_views(r@)) == s@,
{
    let spans = pat.find_spans(s);
    let ghost sp = spans@;
    let ghost whole = split_pieces(s@, sp, 0, 0, white);
    proof {
        lemma_split_pieces_concat(s@, sp, 0, 0, white);
        assert(s@.subrange(0, s@.len() as int) =~= s@);
    }
    let n = s.unicode_len();
    let mut out: Vec<PreToken> = Vec::new();
    let mut k: usize = 0;
    let mut last: usize = 0;
    proof {
        assert(pre_views(out@) =~= Seq::<PreTokenV>::empty());
        assert(pre_views(out@) + split_pieces(s@, sp, 0, 0, white) =~= whole);
    }
    while k < spans.len()
        invariant
            sp == spans@,
            spans_ordered(sp, s@.len() as int),
            n == s@.len(),
            0 <= k <= sp.len(),
            0 <= last <= n,
            forall|j: int| k <= j < sp.len() ==> last <= #[trigger] sp[j].0,
            pre_views(out@) + split_pieces(s@, sp, k as int, last as int, white) == whole,
        decreases sp.len() - k,
    {
        let (st, en) = spans[k];
        if en > st {
            let ghost before = out@;
            if st != last {
                let gap = s.substring_char(last, st).to_owned();
                out.push(PreToken::Unrefined(gap));
            }
            let piece = s.substring_char(st, en).to_owned();
            if white {
                out.push(PreToken::SpecialWhite(piece));
            } else {
                out.push(PreToken::SpecialBlack(piece));
            }
            proof {
                let gap: Seq<PreTokenV> = if st != last {
                    seq![PreTokenV::Plain(s@.subrange(last as int, st as int))]
                } else {
                    Seq::empty()
                };
                let mid = seq![mk_special(white, s@.subrange(st as int, en as int))];
                assert(pre_views(out@) =~= pre_views(before) + gap + mid);
                assert(split_pieces(s@, sp, k as int, last as int, white) =~= gap + mid
                    + split_pieces(s@, sp, k + 1, en as int, white));
                assert(pre_views(out@) + split_pieces(s@, sp, k + 1, en as int, white) =~= whole);
            }
            last = en;
        }
        k = k + 1;
    }
    if last != n {
        let ghost before = out@;
        let tail = s.substring_char(last, n).to_owned();
        out.push(PreToken::Unrefined(tail));
        proof {
            assert(pre_views(out@) =~= pre_views(before) + seq![
                PreTokenV::Plain(s@.subrange(last as int, s@.len() as int)),
            ]);
            assert(pre_views(out@) =~= whole);
        }
    } else {
        proof {
            assert(split_pieces(s@, sp, sp.len() as int, last as int, white)
                =~= Seq::<PreTokenV>::empty());
            assert(pre_views(out@) =~= whole);
        }
    }
    out
}

/// One pattern applied across a pre-token list: special spans pass through,
/// unrefined spans are split.
pub open spec fn apply_pattern_spec(ps: Seq<PreTokenV>, pat: Seq<char>, white: bool) -> Seq<
    PreTokenV,
>
    decreases ps.len(),
{
    if ps.len() == 0 {
        Seq::empty()
    } else {
        (match ps[0] {
            PreTokenV::Plain(s) => split_special_spec(s, pat, white),
            other => seq![other],
        }) + apply_pattern_spec(ps.drop_first(), pat, white)
    }
}

pub proof fn lemma_apply_pattern_singleton(p: PreTokenV, pat: Seq<char>, white: bool)
    ensures
        apply_pattern_spec(seq![p], pat, white) == (match p {
            PreTokenV::Plain(s) => split_special_spec(s, pat, white),
            other => seq![other],
        }),
{
    let s = seq![p];
    assert(s[0] == p);
    assert(s.drop_first() =~= Seq::<PreTokenV>::empty());
    assert(apply_pattern_spec(Seq::<PreTokenV>::empty(), pat, white) == Seq::<PreTokenV>::empty());
    let head: Seq<PreTokenV> = match p {
        PreTokenV::Plain(t) => split_special_spec(t, pat, white),
        other => seq![other],
    };
    assert(head + Seq::<PreTokenV>::empty() =~= head);
}

pub proof fn lemma_apply_pattern_concat(
    a: Seq<PreTokenV>,
    b: Seq<PreTokenV>,
    pat: Seq<char>,
    white: bool,
)
    ensures
        apply_pattern_spec(a + b, pat, white) == apply_pattern_spec(a, pat, white)
            + apply_pattern_spec(b, pat, white),
    decreases a.len(),
{
    if a.len() == 0 {
        assert(a + b =~= b);
        assert(apply_pattern_spec(a + b, pat, white) =~= apply_pattern_spec(a, pat, white)
            + apply_pattern_spec(b, pat, white));
    } else {
        assert((a + b).drop_first() =~= a.drop_first() + b);
        lemma_apply_pattern_concat(a.drop_first(), b, pat, white);
        assert(apply_pattern_spec(a + b, pat, white) =~= apply_pattern_spec(a, pat, white)
            + apply_pattern_spec(b, pat, white));
    }
}

/// A pattern list applied in order: later patterns see only what the earlier
/// ones left unrefined.
pub open spec fn apply_patterns_spec(
    ps: Seq<PreTokenV>,
    pats: Seq<Seq<char>>,
    white: bool,
) -> Seq<PreTokenV>
    decreases pats.len(),
{
    if pats.len() == 0 {
        ps
    } else {
        apply_patterns_spec(apply_pattern_spec(ps, pats[0], white), pats.drop_first(), white)
    }
}

/// The pre-token sequence of a message: white patterns first, black second.
pub open spec fn pre_tokenize_spec(
    msg: Seq<char>,
    whites: Seq<Seq<char>>,
    blacks: Seq<Seq<char>>,
) -> Seq<PreTokenV> {
    apply_patterns_spec(
        apply_patterns_spec(seq![PreTokenV::Plain(msg)], whites, true),
        blacks,
        false,
    )
}

fn apply_pattern(pretoks: Vec<PreToken>, pat: &CompiledPattern, white: bool) -> (r: Vec<PreToken>)
    ensures
        pre_views(r@) == apply_pattern_spec(pre_views(pretoks@), pat@, white),
        pre_texts_concat(pre_views(r@)) == pre_texts_concat(pre_views(pretoks@)),
{
    let ghost views = pre_views(pretoks@);
    let mut out: Vec<PreToken> = Vec::new();
    let mut i: usize = 0;
    proof {
        assert(views.take(0) =~= Seq::<PreTokenV>::empty());
        assert(pre_views(out@) =~= apply_pattern_spec(views.take(0), pat@, white));
    }
    while i < pretoks.len()
        invariant
            views == pre_views(pretoks@),
            0 <= i <= pretoks@.len(),
            pre_views(out@) == apply_pattern_spec(views.take(i as int), pat@, white),
            pre_texts_concat(pre_views(out@)) == pre_texts_concat(views.take(i as int)),
        decreases pretoks@.len() - i,
    {
        let ghost before = out@;
        let ghost head = views[i as int];
        match &pretoks[i] {
            PreToken::SpecialWhite(t) => {
                out.push(PreToken::SpecialWhite(t.clone()));
                proof {
                    assert(pre_views(out@) =~= pre_views(before) + seq![head]);
                    lemma_pre_texts_concat_concat(pre_views(before), seq![head]);
                    lemma_pre_texts_concat_singleton(head);
                }
            },
            PreToken::SpecialBlack(t) => {
                out.push(PreToken::SpecialBlack(t.clone()));
                proof {
                    assert(pre_views(out@) =~= pre_views(before) + seq![head]);
                    lemma_pre_texts_concat_concat(pre_views(before), seq![head]);
                    lemma_pre_texts_concat_singleton(head);
                }
            },
            PreToken::Unrefined(t) => {
                let mut pieces = split_special(t.as_str(), pat, white);
                let ghost pv = pre_views(pieces@);
                out.append(&mut pieces);
                proof {
                    assert(pre_views(out@) =~= pre_views(before) + pv);
                    lemma_pre_texts_concat_concat(pre_views(before), pv);
                }
            },
        }
        proof {
            assert(views.take(i + 1) =~= views.take(i as int) + seq![head]);
            lemma_apply_pattern_concat(views.take(i as int), seq![head], pat@, white);
            lemma_apply_pattern_singleton(head, pat@, white);
            lemma_pre_texts_concat_concat(views.take(i as int), seq![head]);
            lemma_pre_texts_concat_singleton(head);
        }
        i = i + 1;
    }
    proof {
        assert(views.take(pretoks@.len() as int) =~= views);
    }
    out
}

/// Configuration of the tokenizer: the special extractors and the symbol set.
pub struct Tokenizer {
    special_whites: Vec<CompiledPattern>,
    special_blacks: Vec<CompiledPattern>,
    symbols: Vec<char>,
}

impl Tokenizer {
    pub closed spec fn whites_view(&self) -> Seq<Seq<char>> {
        self.special_whites@.map_values(|p: CompiledPattern| p@)
    }

    pub closed spec fn blacks_view(&self) -> Seq<Seq<char>> {
        self.special_blacks@.map_values(|p: CompiledPattern| p@)
    }

    pub closed spec fn symbols_view(&self) -> Seq<char> {
        self.symbols@
    }

    pub fn new(
        special_whites: Vec<CompiledPattern>,
        special_blacks: Vec<CompiledPattern>,
        symbols: Vec<char>,
    ) -> (r: Tokenizer)
        ensures
            r.whites_view() == special_whites@.map_values(|p: CompiledPattern| p@),
            r.blacks_view() == special_blacks@.map_values(|p: CompiledPattern| p@),
            r.symbols_view() == symbols@,
    {
        Tokenizer { special_whites, special_blacks, symbols }
    }

    /// The same special patterns with another symbol set.
    pub fn new_with_symbols(&self, symbols: Vec<char>) -> (r: Tokenizer)
        ensures
            r.whites_view() == self.whites_view(),
            r.blacks_view() == self.blacks_view(),
            r.symbols_view() == symbols@,
    {
        let mut whites: Vec<CompiledPattern> = Vec::new();
        let mut i: usize = 0;
        while i < self.special_whites.len()
            invariant
                0 <= i <= self.special_whites@.len(),
                whites@.len() == i,
                forall|k: int| 0 <= k < i ==> whites@[k]@ == #[trigger] self.special_whites@[k]@,
            decreases self.special_whites@.len() - i,
        {
            whites.push(self.special_whites[i].clone_pattern());
            i = i + 1;
        }
        let mut blacks: Vec<CompiledPattern> = Vec::new();
        let mut j: usize = 0;
        while j < self.special_blacks.len()
            invariant
                0 <= j <= self.special_blacks@.len(),
                blacks@.len() == j,
                forall|k: int| 0 <= k < j ==> blacks@[k]@ == #[trigger] self.special_blacks@[k]@,
            decreases self.special_blacks@.len() - j,
        {
            blacks.push(self.special_blacks[j].clone_pattern());
            j = j + 1;
        }
        let r = Tokenizer { special_whites: whites, special_blacks: blacks, symbols };
        proof {
            assert(r.whites_view() =~= self.whites_view());
            assert(r.blacks_view() =~= self.blacks_view());
        }
        r
    }

    /// Carves the message into special and unrefined spans.
    pub fn pre_tokenize(&self, msg: &str) -> (r: Vec<PreToken>)
        ensures
            pre_views(r@) == pre_tokenize_spec(msg@, self.whites_view(), self.blacks_view()),
            pre_texts_concat(pre_views(r@)) == msg@,
    {
        let mut pretoks: Vec<PreToken> = Vec::new();
        pretoks.push(PreToken::Unrefined(msg.to_owned()));
        proof {
            assert(pre_views(pretoks@) =~= seq![PreTokenV::Plain(msg@)]);
            lemma_pre_texts_concat_singleton(PreTokenV::Plain(msg@));
        }
        let ghost whites = self.whites_view();
        let ghost blacks = self.blacks_view();
        proof {
            assert(whites.skip(0) =~= whites);
        }
        let mut i: usize = 0;
        while i < self.special_whites.len()
            invariant
                whites == self.whites_view(),
                blacks == self.blacks_view(),
                0 <= i <= whites.len(),
                apply_patterns_spec(pre_views(pretoks@), whites.skip(i as int), true)
                    == apply_patterns_spec(seq![PreTokenV::Plain(msg@)], whites, true),
                pre_texts_concat(pre_views(pretoks@)) == msg@,
            decreases whites.len() - i,
        {
            let ghost before = pre_views(pretoks@);
            pretoks = apply_pattern(pretoks, &self.special_whites[i], true);
            proof {
                assert(whites.skip(i as int)[0] == whites[i as int]);
                assert(whites.skip(i as int).drop_first() =~= whites.skip(i + 1));
                assert(apply_patterns_spec(before, whites.skip(i as int), true)
                    == apply_patterns_spec(
                    apply_pattern_spec(before, whites[i as int], true),
                    whites.skip(i + 1),
                    true,
                ));
            }
            i = i + 1;
        }
        proof {
            assert(whites.skip(whites.len() as int) =~= Seq::<Seq<char>>::empty());
        }
        let ghost after_whites = pre_views(pretoks@);
        proof {
            assert(blacks.skip(0) =~= blacks);
        }
        let mut j: usize = 0;
        while j < self.special_blacks.len()
            invariant
                blacks == self.blacks_view(),
                0 <= j <= blacks.len(),
                apply_patterns_spec(pre_views(pretoks@), blacks.skip(j as int), false)
                    == apply_patterns_spec(after_whites, blacks, false),
                pre_texts_concat(pre_views(pretoks@)) == msg@,
            decreases blacks.len() - j,
        {
            let ghost before = pre_views(pretoks@);
            pretoks = apply_pattern(pretoks, &self.special_blacks[j], false);
            proof {
                assert(blacks.skip(j as int)[0] == blacks[j as int]);
                assert(blacks.skip(j as int).drop_first() =~= blacks.skip(j + 1));
                assert(apply_patterns_spec(before, blacks.skip(j as int), false)
                    == apply_patterns_spec(
                    apply_pattern_spec(before, blacks[j as int], false),
                    blacks.skip(j + 1),
                    false,
                ));
            }
            j = j + 1;
        }
        proof {
            assert(blacks.skip(blacks.len() as int) =~= Seq::<Seq<char>>::empty());
        }
        pretoks
    }

    /// Splits the message into typed tokens covering every character exactly
    /// once, in input order: special spans first, then unrefined spans split
    /// at whitespace and symbol characters. Concatenating the texts of the
    /// tokens reproduces the message exactly.
    pub fn tokenize(&self, msg: &str) -> (r: Vec<Token>)
        ensures
            views_of(r@) == tokenize_spec(
                msg@,
                self.whites_view(),
                self.blacks_view(),
                self.symbols_view(),
            ),
            texts_concat(views_of(r@)) == msg@,
    {
        let pretoks = self.pre_tokenize(msg);
        let ghost pvs = pre_views(pretoks@);
        let mut out: Vec<Token> = Vec::new();
        let mut i: usize = 0;
        proof {
            assert(pvs.take(0) =~= Seq::<PreTokenV>::empty());
            assert(views_of(out@) =~= refine_all(pvs.take(0), self.symbols_view()));
        }
        while i < pretoks.len()
            invariant
                pvs == pre_views(pretoks@),
                0 <= i <= pretoks@.len(),
                views_of(out@) == refine_all(pvs.take(i as int), self.symbols_view()),
            decreases pretoks@.len() - i,
        {
            let ghost before = out@;
            let ghost head = pvs[i as int];
            match &pretoks[i] {
                PreToken::SpecialWhite(t) => {
                    out.push(Token::SpecialWhite(t.clone()));
                    proof {
                        assert(views_of(out@) =~= views_of(before) + refine_one(
                            head,
                            self.symbols_view(),
                        ));
                    }
                },
                PreToken::SpecialBlack(t) => {
                    out.push(Token::SpecialBlack(t.clone()));
                    proof {
                        assert(views_of(out@) =~= views_of(before) + refine_one(
                            head,
                            self.symbols_view(),
                        ));
                    }
                },
                PreToken::Unrefined(t) => {
                    let mut toks = split_token(t.as_str(), &self.symbols);
                    let ghost tv = views_of(toks@);
                    out.append(&mut toks);
                    proof {
                        assert(views_of(out@) =~= views_of(before) + tv);
                    }
                },
            }
            proof {
                assert(pvs.take(i + 1) =~= pvs.take(i as int) + seq![head]);
                lemma_refine_all_concat(pvs.take(i as int), seq![head], self.symbols_view());
                lemma_refine_all_singleton(head, self.symbols_view());
            }
            i = i + 1;
        }
        proof {
            assert(pvs.take(pretoks@.len() as int) =~= pvs);
            lemma_refine_all_texts(pvs, self.symbols_view());
        }
        out
    }
}

/// The tokenizer as an interface: any implementation splits a message into
/// tokens whose texts concatenate back to the message, exactly.
pub trait Tokenize {
    fn tokenize(&self, msg: &str) -> (r: Vec<Token>)
        ensures
            texts_concat(views_of(r@)) == msg@,
    ;
}

impl Tokenize for Tokenizer {
    fn tokenize(&self, msg: &str) -> (r: Vec<Token>)
        ensures
            texts_concat(views_of(r@)) == msg@,
    {
        Tokenizer::tokenize(self, msg)
    }
}

/// Whether the character splits an unrefined span.
pub open spec fn is_break(c: char, symbols: Seq<char>) -> bool {
    whitespace_of(c) || symbols.contains(c)
}

/// The index of the first break character, or the length if there is none.
pub open spec fn first_break(s: Seq<char>, symbols: Seq<char>) -> int
    decreases s.len(),
{
    if s.len() == 0 {
        0
    } else if is_break(s[0], symbols) {
        0
    } else {
        1 + first_break(s.drop_first(), symbols)
    }
}

pub proof fn lemma_first_break_bounds(s: Seq<char>, symbols: Seq<char>)
    ensures
        0 <= first_break(s, symbols) <= s.len(),
        forall|k: int| 0 <= k < first_break(s, symbols) ==> !is_break(#[trigger] s[k], symbols),
        first_break(s, symbols) < s.len() ==> is_break(s[first_break(s, symbols)], symbols),
    decreases s.len(),
{
    if s.len() > 0 && !is_break(s[0], symbols) {
        lemma_first_break_bounds(s.drop_first(), symbols);
        assert forall|k: int| 0 <= k < first_break(s, symbols) implies !is_break(
            #[trigger] s[k],
            symbols,
        ) by {
            if k > 0 {
                assert(s[k] == s.drop_first()[k - 1]);
            }
        }
        if first_break(s, symbols) < s.len() {
            assert(s[first_break(s, symbols)] == s.drop_first()[first_break(
                s.drop_first(),
                symbols,
            )]);
        }
    }
}

/// `first_break` is the unique index with no break before it and a break (or
/// the end) at it.
pub proof fn lemma_first_break_char(s: Seq<char>, symbols: Seq<char>, m: int)
    requires
        0 <= m <= s.len(),
        forall|k: int| 0 <= k < m ==> !is_break(#[trigger] s[k], symbols),
        m < s.len() ==> is_break(s[m], symbols),
    ensures
        first_break(s, symbols) == m,
    decreases s.len(),
{
    if s.len() == 0 {
    } else if m == 0 {
    } else {
        assert(!is_break(s[0], symbols));
        assert forall|k: int| 0 <= k < m - 1 implies !is_break(
            #[trigger] s.drop_first()[k],
            symbols,
        ) by {
            assert(s.drop_first()[k] == s[k + 1]);
        }
        if m - 1 < s.drop_first().len() {
            assert(s.drop_first()[m - 1] == s[m]);
        }
        lemma_first_break_char(s.drop_first(), symbols, m - 1);
    }
}

/// The token value an unrefined slice becomes.
pub open spec fn tok_of(s: Seq<char>, symbols: Seq<char>) -> TokenV {
    TokenV { kind: classify(s, symbols), text: s }
}

/// How an unrefined span splits into tokens: the run before each break
/// character (if non-empty), the break character itself, and so on.
pub open spec fn split_token_spec(s: Seq<char>, symbols: Seq<char>) -> Seq<TokenV>
    decreases s.len(),
{
    if s.len() == 0 {
        Seq::empty()
    } else {
        let i = first_break(s, symbols);
        if !(0 <= i < s.len()) {
            seq![tok_of(s, symbols)]
        } else {
            (if i > 0 {
                seq![tok_of(s.subrange(0, i), symbols)]
            } else {
                Seq::empty()
            }) + seq![tok_of(s.subrange(i, i + 1), symbols)] + split_token_spec(
                s.subrange(i + 1, s.len() as int),
                symbols,
            )
        }
    }
}

pub proof fn lemma_texts_concat_singleton(t: TokenV)
    ensures
        texts_concat(seq![t]) == t.text,
{
    let s = seq![t];
    assert(s[0] == t);
    assert(s.drop_first() =~= Seq::<TokenV>::empty());
    assert(texts_concat(Seq::<TokenV>::empty()) == Seq::<char>::empty());
    assert(t.text + Seq::<char>::empty() =~= t.text);
}

/// The split of an unrefined span covers it exactly.
pub proof fn lemma_split_token_concat(s: Seq<char>, symbols: Seq<char>)
    ensures
        texts_concat(split_token_spec(s, symbols)) == s,
    decreases s.len(),
{
    if s.len() == 0 {
        assert(s =~= Seq::<char>::empty());
    } else {
        lemma_first_break_bounds(s, symbols);
        let i = first_break(s, symbols);
        if !(0 <= i < s.len()) {
            lemma_texts_concat_singleton(tok_of(s, symbols));
        } else {
            let rest = s.subrange(i + 1, s.len() as int);
            lemma_split_token_concat(rest, symbols);
            let run: Seq<TokenV> = if i > 0 {
                seq![tok_of(s.subrange(0, i), symbols)]
            } else {
                Seq::empty()
            };
            let brk = seq![tok_of(s.subrange(i, i + 1), symbols)];
            let tail = split_token_spec(rest, symbols);
            crate::token::lemma_texts_concat_concat(run, brk + tail);
            crate::token::lemma_texts_concat_concat(brk, tail);
            if i > 0 {
                lemma_texts_concat_singleton(tok_of(s.subrange(0, i), symbols));
            } else {
                assert(texts_concat(run) =~= s.subrange(0, i));
            }
            lemma_texts_concat_singleton(tok_of(s.subrange(i, i + 1), symbols));
            assert(texts_concat(run) =~= s.subrange(0, i));
            assert(split_token_spec(s, symbols) =~= run + (brk + tail));
            assert(s.subrange(0, i) + (s.subrange(i, i + 1) + s.subrange(i + 1, s.len() as int))
                =~= s);
        }
    }
}

/// Whether the character splits an unrefined span.
fn is_break_x(c: char, symbols: &Vec<char>) -> (r: bool)
    ensures
        r == is_break(c, symbols@),
{
    crate::chars::char_is_whitespace(c) || is_symbol(c, symbols)
}

/// Splits an unrefined span at whitespace and symbol characters, classifying
/// each emitted slice.
pub fn split_token(s: &str, symbols: &Vec<char>) -> (r: Vec<Token>)
    ensures
        views_of(r@) == split_token_spec(s@, symbols@),
{
    let n = s.unicode_len();
    let mut out: Vec<Token> = Vec::new();
    let mut start: usize = 0;
    proof {
        assert(s@.skip(0) =~= s@);
        assert(views_of(out@) + split_token_spec(s@.skip(0), symbols@) =~= split_token_spec(
            s@,
            symbols@,
        ));
    }
    while start < n
        invariant
            n == s@.len(),
            0 <= start <= n,
            views_of(out@) + split_token_spec(s@.skip(start as int), symbols@) == split_token_spec(
                s@,
                symbols@,
            ),
        decreases n - start,
    {
        let ghost t = s@.skip(start as int);
        let mut j: usize = start;
        while j < n && !is_break_x(s.get_char(j), symbols)
            invariant
                n == s@.len(),
                start <= j <= n,
                forall|k: int| start <= k < j ==> !is_break(#[trigger] s@[k], symbols@),
            decreases n - j,
        {
            j = j + 1;
        }
        proof {
            assert forall|k: int| 0 <= k < j - start implies !is_break(
                #[trigger] t[k],
                symbols@,
            ) by {
                assert(t[k] == s@[start + k]);
            }
            if j < n {
                assert(t[j - start] == s@[j as int]);
            }
            lemma_first_break_char(t, symbols@, j - start);
        }
        let ghost before = out@;
        if j < n {
            if j > start {
                out.push(Token::with(s.substring_char(start, j), symbols));
            }
            out.push(Token::with(s.substring_char(j, j + 1), symbols));
            proof {
                let i = j - start;
                let run: Seq<TokenV> = if i > 0 {
                    seq![tok_of(t.subrange(0, i), symbols@)]
                } else {
                    Seq::empty()
                };
                let brk = seq![tok_of(t.subrange(i, i + 1), symbols@)];
                assert(t.subrange(0, i) =~= s@.subrange(start as int, j as int));
                assert(t.subrange(i, i + 1) =~= s@.subrange(j as int, j + 1));
                assert(t.subrange(i + 1, t.len() as int) =~= s@.skip(j + 1));
                assert(split_token_spec(t, symbols@) =~= run + brk + split_token_spec(
                    s@.skip(j + 1),
                    symbols@,
                ));
                assert(views_of(out@) =~= views_of(before) + run + brk);
            }
            start = j + 1;
        } else {
            out.push(Token::with(s.substring_char(start, n), symbols));
            proof {
                assert(t.len() > 0);
                assert(first_break(t, symbols@) == n - start);
                assert(t =~= s@.subrange(start as int, n as int));
                assert(split_token_spec(t, symbols@) =~= seq![tok_of(t, symbols@)]);
                assert(views_of(out@) =~= views_of(before) + seq![tok_of(t, symbols@)]);
                assert(s@.skip(n as int) =~= Seq::<char>::empty());
                assert(views_of(out@) + split_token_spec(s@.skip(n as int), symbols@)
                    =~= views_of(out@));
            }
            start = n;
        }
    }
    proof {
        assert(s@.skip(n as int) =~= Seq::<char>::empty());
        assert(views_of(out@) + split_token_spec(s@.skip(n as int), symbols@) =~= views_of(out@));
    }
    out
}

/// How one pre-token refines into tokens.
pub open spec fn refine_one(p: PreTokenV, symbols: Seq<char>) -> Seq<TokenV> {
    match p {
        PreTokenV::White(s) => seq![TokenV { kind: Kind::SpecialWhite, text: s }],
        PreTokenV::Black(s) => seq![TokenV { kind: Kind::SpecialBlack, text: s }],
        PreTokenV::Plain(s) => split_token_spec(s, symbols),
    }
}

pub open spec fn refine_all(ps: Seq<PreTokenV>, symbols: Seq<char>) -> Seq<TokenV>
    decreases ps.len(),
{
    if ps.len() == 0 {
        Seq::empty()
    } else {
        refine_one(ps[0], symbols) + refine_all(ps.drop_first(), symbols)
    }
}

pub proof fn lemma_refine_all_concat(a: Seq<PreTokenV>, b: Seq<PreTokenV>, symbols: Seq<char>)
    ensures
        refine_all(a + b, symbols) == refine_all(a, symbols) + refine_all(b, symbols),
    decreases a.len(),
{
    if a.len() == 0 {
        assert(a + b =~= b);
        assert(refine_all(a + b, symbols) =~= refine_all(a, symbols) + refine_all(b, symbols));
    } else {
        assert((a + b).drop_first() =~= a.drop_first() + b);
        lemma_refine_all_concat(a.drop_first(), b, symbols);
        assert(refine_all(a + b, symbols) =~= refine_all(a, symbols) + refine_all(b, symbols));
    }
}

pub proof fn lemma_refine_all_singleton(p: PreTokenV, symbols: Seq<char>)
    ensures
        refine_all(seq![p], symbols) == refine_one(p, symbols),
{
    let s = seq![p];
    assert(s[0] == p);
    assert(s.drop_first() =~= Seq::<PreTokenV>::empty());
    assert(refine_all(Seq::<PreTokenV>::empty(), symbols) == Seq::<TokenV>::empty());
    assert(refine_one(p, symbols) + Seq::<TokenV>::empty() =~= refine_one(p, symbols));
}

/// Refinement keeps every character: the texts of the refined tokens
/// concatenate to the texts of the pre-tokens.
pub proof fn lemma_refine_all_texts(ps: Seq<PreTokenV>, symbols: Seq<char>)
    ensures
        texts_concat(refine_all(ps, symbols)) == pre_texts_concat(ps),
    decreases ps.len(),
{
    if ps.len() > 0 {
        lemma_refine_all_texts(ps.drop_first(), symbols);
        crate::token::lemma_texts_concat_concat(
            refine_one(ps[0], symbols),
            refine_all(ps.drop_first(), symbols),
        );
        match ps[0] {
            PreTokenV::White(s) => {
                lemma_texts_concat_singleton(TokenV { kind: Kind::SpecialWhite, text: s });
            },
            PreTokenV::Black(s) => {
                lemma_texts_concat_singleton(TokenV { kind: Kind::SpecialBlack, text: s });
            },
            PreTokenV::Plain(s) => {
                lemma_split_token_concat(s, symbols);
            },
        }
    }
}

/// The token sequence of a message under the given configuration.
pub open spec fn tokenize_spec(
    msg: Seq<char>,
    whites: Seq<Seq<char>>,
    blacks: Seq<Seq<char>>,
    symbols: Seq<char>,
) -> Seq<TokenV> {
    refine_all(pre_tokenize_spec(msg, whites, blacks), symbols)
}

} // verus!
