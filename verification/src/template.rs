//! Per-cluster template and mask computation: the shared-slice set is the
//! intersection of the retained token texts of the cluster's messages; a
//! template replaces every non-shared run by one placeholder; a mask marks,
//! byte by byte, which positions of a message are parameters.

use vstd::prelude::*;
use crate::chars::{byte_len, char_width, char_width_x, lemma_byte_len_concat,
    lemma_byte_len_singleton, lemma_byte_len_nonneg};
use crate::record::{has_text, has_text_x, texts_distinct};
use crate::token::{Token, TokenV, Kind, views_of, texts_concat, lemma_texts_concat_concat};
use crate::tokenizer::{Tokenizer, tokenize_spec};

verus! {

/// Whether a token of the given tag contributes to the shared-slice set:
/// special-white, whitespace and symbol tokens always, special-black never,
/// the rest by flag.
pub open spec fn tpl_passes(fa: bool, fnum: bool, fi: bool, k: Kind) -> bool {
    match k {
        Kind::SpecialWhite => true,
        Kind::Whitespace => true,
        Kind::Symbolic => true,
        Kind::Alphabetic => fa,
        Kind::Numeric => fnum,
        Kind::Impure => fi,
        Kind::SpecialBlack => false,
    }
}

/// The set of texts of one message that the template filter retains.
pub open spec fn tpl_retained(
    whites: Seq<Seq<char>>,
    blacks: Seq<Seq<char>>,
    symbols: Seq<char>,
    fa: bool,
    fnum: bool,
    fi: bool,
    msg: Seq<char>,
) -> Set<Seq<char>> {
    Set::new(
        |t: Seq<char>|
            {
                let toks = tokenize_spec(msg, whites, blacks, symbols);
                exists|k: int|
                    0 <= k < toks.len() && tpl_passes(fa, fnum, fi, (#[trigger] toks[k]).kind)
                        && toks[k].text == t
            },
    )
}

/// The shared-slice set of a message list: the intersection of the retained
/// sets, empty for an empty list.
pub open spec fn shared_spec(
    whites: Seq<Seq<char>>,
    blacks: Seq<Seq<char>>,
    symbols: Seq<char>,
    fa: bool,
    fnum: bool,
    fi: bool,
    msgs: Seq<Seq<char>>,
) -> Set<Seq<char>>
    decreases msgs.len(),
{
    if msgs.len() == 0 {
        Set::empty()
    } else if msgs.len() == 1 {
        tpl_retained(whites, blacks, symbols, fa, fnum, fi, msgs[0])
    } else {
        shared_spec(whites, blacks, symbols, fa, fnum, fi, msgs.drop_last()).intersect(
            tpl_retained(whites, blacks, symbols, fa, fnum, fi, msgs.last()),
        )
    }
}

/// The set of texts a string list holds.
pub open spec fn str_set(ls: Seq<String>) -> Set<Seq<char>> {
    Set::new(|t: Seq<char>| has_text(ls, t))
}

/// The distinct texts the template filter retains from a tokenized message.
fn retained_texts(toks: &Vec<Token>, fa: bool, fnum: bool, fi: bool) -> (r: Vec<String>)
    ensures
        texts_distinct(r@),
        forall|t: Seq<char>|
            #[trigger] has_text(r@, t) <==> exists|k: int|
                0 <= k < views_of(toks@).len() && tpl_passes(
                    fa,
                    fnum,
                    fi,
                    (#[trigger] views_of(toks@)[k]).kind,
                ) && views_of(toks@)[k].text == t,
{
    let ghost tv = views_of(toks@);
    let mut out: Vec<String> = Vec::new();
    let mut k: usize = 0;
    while k < toks.len()
        invariant
            tv == views_of(toks@),
            0 <= k <= toks@.len(),
            texts_distinct(out@),
            forall|t: Seq<char>|
                #[trigger] has_text(out@, t) <==> exists|j: int|
                    0 <= j < k && tpl_passes(fa, fnum, fi, (#[trigger] tv[j]).kind) && tv[j].text
                        == t,
        decreases toks@.len() - k,
    {
        let ghost before = out@;
        let keep = match &toks[k] {
            Token::SpecialWhite(_) => true,
            Token::Whitespace(_) => true,
            Token::Symbolic(_) => true,
            Token::Alphabetic(_) => fa,
            Token::Numeric(_) => fnum,
            Token::Impure(_) => fi,
            Token::SpecialBlack(_) => false,
        };
        if keep {
            if !has_text_x(&out, toks[k].as_str()) {
                out.push(toks[k].text_string());
                proof {
                    assert(out@.drop_last() =~= before);
                    assert(out@.last()@ == tv[k as int].text);
                    assert forall|p: int, q: int| 0 <= p < q < out@.len() implies (
                    #[trigger] out@[p])@ != (#[trigger] out@[q])@ by {
                        if q < out@.len() - 1 {
                            assert(out@[p] == before[p]);
                            assert(out@[q] == before[q]);
                        } else {
                            assert(out@[p] == before[p]);
                            assert(has_text(before, before[p]@));
                        }
                    }
                }
            }
        }
        proof {
            let now = out@;
            assert forall|t: Seq<char>| #[trigger] has_text(now, t) implies exists|j: int|
                0 <= j < k + 1 && tpl_passes(fa, fnum, fi, (#[trigger] tv[j]).kind) && tv[j].text
                    == t by {
                let i0 = choose|i0: int| 0 <= i0 < now.len() && (#[trigger] now[i0])@ == t;
                if i0 < before.len() {
                    assert(has_text(before, t)) by {
                        assert(before[i0]@ == t);
                    }
                    let j = choose|j: int|
                        0 <= j < k && tpl_passes(fa, fnum, fi, (#[trigger] tv[j]).kind)
                            && tv[j].text == t;
                    assert(0 <= j < k + 1 && tpl_passes(fa, fnum, fi, tv[j].kind) && tv[j].text
                        == t);
                } else {
                    assert(now[i0]@ == tv[k as int].text);
                    assert(tpl_passes(fa, fnum, fi, tv[k as int].kind));
                }
            }
            assert forall|t: Seq<char>|
                (exists|j: int|
                    0 <= j < k + 1 && tpl_passes(fa, fnum, fi, (#[trigger] tv[j]).kind)
                        && tv[j].text == t) implies #[trigger] has_text(now, t) by {
                let j = choose|j: int|
                    0 <= j < k + 1 && tpl_passes(fa, fnum, fi, (#[trigger] tv[j]).kind)
                        && tv[j].text == t;
                if j < k {
                    assert(has_text(before, t));
                    let i0 = choose|i0: int| 0 <= i0 < before.len() && (#[trigger] before[i0])@ == t;
                    assert(now[i0]@ == t);
                } else {
                    assert(tv[k as int].text == t);
                    if has_text(before, t) {
                        let i0 = choose|i0: int|
                            0 <= i0 < before.len() && (#[trigger] before[i0])@ == t;
                        assert(now[i0]@ == t);
                    } else {
                        assert(now.last()@ == t);
                    }
                }
            }
        }
        k = k + 1;
    }
    out
}

/// The strings of `a` whose texts are also in `b`, without repetition.
fn intersect_texts(a: &Vec<String>, b: &Vec<String>) -> (r: Vec<String>)
    requires
        texts_distinct(a@),
    ensures
        texts_distinct(r@),
        forall|t: Seq<char>| #[trigger] has_text(r@, t) <==> has_text(a@, t) && has_text(b@, t),
{
    let mut out: Vec<String> = Vec::new();
    let mut i: usize = 0;
    while i < a.len()
        invariant
            texts_distinct(a@),
            0 <= i <= a@.len(),
            texts_distinct(out@),
            forall|t: Seq<char>|
                #[trigger] has_text(out@, t) <==> (exists|p: int|
                    0 <= p < i && (#[trigger] a@[p])@ == t) && has_text(b@, t),
        decreases a@.len() - i,
    {
        let ghost before = out@;
        if has_text_x(b, a[i].as_str()) {
            if !has_text_x(&out, a[i].as_str()) {
                out.push(a[i].clone());
                proof {
                    assert(out@.drop_last() =~= before);
                    assert(out@.last()@ == a@[i as int]@);
                    assert forall|p: int, q: int| 0 <= p < q < out@.len() implies (
                    #[trigger] out@[p])@ != (#[trigger] out@[q])@ by {
                        if q < out@.len() - 1 {
                            assert(out@[p] == before[p]);
                            assert(out@[q] == before[q]);
                        } else {
                            assert(out@[p] == before[p]);
                            assert(has_text(before, before[p]@));
                        }
                    }
                }
            }
        }
        proof {
            let now = out@;
            assert forall|t: Seq<char>| #[trigger] has_text(now, t) implies (exists|p: int|
                0 <= p < i + 1 && (#[trigger] a@[p])@ == t) && has_text(b@, t) by {
                let i0 = choose|i0: int| 0 <= i0 < now.len() && (#[trigger] now[i0])@ == t;
                if i0 < before.len() {
                    assert(has_text(before, t)) by {
                        assert(before[i0]@ == t);
                    }
                } else {
                    assert(a@[i as int]@ == t);
                }
            }
            assert forall|t: Seq<char>|
                ((exists|p: int| 0 <= p < i + 1 && (#[trigger] a@[p])@ == t) && has_text(
                    b@,
                    t,
                )) implies #[trigger] has_text(now, t) by {
                let p = choose|p: int| 0 <= p < i + 1 && (#[trigger] a@[p])@ == t;
                if p < i {
                    assert(has_text(before, t));
                    let i0 = choose|i0: int| 0 <= i0 < before.len() && (#[trigger] before[i0])@ == t;
                    assert(now[i0]@ == t);
                } else {
                    if has_text(before, t) {
                        let i0 = choose|i0: int|
                            0 <= i0 < before.len() && (#[trigger] before[i0])@ == t;
                        assert(now[i0]@ == t);
                    } else {
                        assert(now.last()@ == t);
                    }
                }
            }
        }
        i = i + 1;
    }
    proof {
        assert forall|t: Seq<char>| #[trigger] has_text(out@, t) <==> has_text(a@, t) && has_text(
            b@,
            t,
        ) by {
            if has_text(a@, t) {
                let p = choose|p: int| 0 <= p < a@.len() && (#[trigger] a@[p])@ == t;
            }
        }
    }
    out
}

/// The shared-slice set of the given messages: the intersection, over the
/// messages, of the texts the template filter retains.
pub fn shared_slices(
    msgs: &Vec<String>,
    tokenizer: &Tokenizer,
    filter_alphabetic: bool,
    filter_numeric: bool,
    filter_impure: bool,
) -> (r: Vec<String>)
    ensures
        texts_distinct(r@),
        str_set(r@) == shared_spec(
            tokenizer.whites_view(),
            tokenizer.blacks_view(),
            tokenizer.symbols_view(),
            filter_alphabetic,
            filter_numeric,
            filter_impure,
            msgs@.map_values(|m: String| m@),
        ),
{
    let ghost whites = tokenizer.whites_view();
    let ghost blacks = tokenizer.blacks_view();
    let ghost symbols = tokenizer.symbols_view();
    let ghost views = msgs@.map_values(|m: String| m@);
    if msgs.len() == 0 {
        let r: Vec<String> = Vec::new();
        proof {
            assert(str_set(r@) =~= Set::<Seq<char>>::empty());
        }
        return r;
    }
    let toks0 = tokenizer.tokenize(msgs[0].as_str());
    let mut shared = retained_texts(&toks0, filter_alphabetic, filter_numeric, filter_impure);
    proof {
        assert(views[0] == msgs@[0]@);
        assert(str_set(shared@) =~= tpl_retained(
            whites,
            blacks,
            symbols,
            filter_alphabetic,
            filter_numeric,
            filter_impure,
            views[0],
        ));
        assert(views.take(1).len() == 1);
        assert(views.take(1)[0] == views[0]);
        assert(str_set(shared@) =~= shared_spec(
            whites,
            blacks,
            symbols,
            filter_alphabetic,
            filter_numeric,
            filter_impure,
            views.take(1),
        ));
    }
    let mut m: usize = 1;
    while m < msgs.len()
        invariant
            whites == tokenizer.whites_view(),
            blacks == tokenizer.blacks_view(),
            symbols == tokenizer.symbols_view(),
            views == msgs@.map_values(|m: String| m@),
            1 <= m <= msgs@.len(),
            texts_distinct(shared@),
            str_set(shared@) == shared_spec(
                whites,
                blacks,
                symbols,
                filter_alphabetic,
                filter_numeric,
                filter_impure,
                views.take(m as int),
            ),
        decreases msgs@.len() - m,
    {
        let toks = tokenizer.tokenize(msgs[m].as_str());
        let ret = retained_texts(&toks, filter_alphabetic, filter_numeric, filter_impure);
        let ghost before = shared@;
        shared = intersect_texts(&shared, &ret);
        proof {
            assert(views[m as int] == msgs@[m as int]@);
            assert(str_set(ret@) =~= tpl_retained(
                whites,
                blacks,
                symbols,
                filter_alphabetic,
                filter_numeric,
                filter_impure,
                views[m as int],
            ));
            assert(views.take(m + 1).drop_last() =~= views.take(m as int));
            assert(views.take(m + 1).last() == views[m as int]);
            assert(views.take(m + 1).len() >= 2);
            assert(str_set(shared@) =~= str_set(before).intersect(str_set(ret@)));
            assert(str_set(shared@) =~= shared_spec(
                whites,
                blacks,
                symbols,
                filter_alphabetic,
                filter_numeric,
                filter_impure,
                views.take(m + 1),
            ));
        }
        m = m + 1;
    }
    proof {
        assert(views.take(msgs@.len() as int) =~= views);
    }
    shared
}

/// The placeholder written where a template's token is not shared.
pub open spec fn placeholder() -> Seq<char> {
    seq!['<', '*', '>']
}

/// The template items of a token list: each shared text kept, each maximal
/// run of non-shared tokens collapsed into one placeholder slot.
pub open spec fn template_items(toks: Seq<TokenV>, shared: Set<Seq<char>>) -> Seq<
    Option<Seq<char>>,
>
    decreases toks.len(),
{
    if toks.len() == 0 {
        Seq::empty()
    } else {
        let pre = template_items(toks.drop_last(), shared);
        if shared.contains(toks.last().text) {
            pre.push(Some(toks.last().text))
        } else if pre.len() > 0 && pre.last() is None {
            pre
        } else {
            pre.push(None)
        }
    }
}

/// The rendering of template items: texts and placeholders, concatenated.
pub open spec fn render_spec(items: Seq<Option<Seq<char>>>) -> Seq<char>
    decreases items.len(),
{
    if items.len() == 0 {
        Seq::empty()
    } else {
        render_spec(items.drop_last()) + (match items.last() {
            Some(t) => t,
            None => placeholder(),
        })
    }
}

/// The template of one message under a shared-slice set.
pub open spec fn template_of(
    whites: Seq<Seq<char>>,
    blacks: Seq<Seq<char>>,
    symbols: Seq<char>,
    shared: Set<Seq<char>>,
    msg: Seq<char>,
) -> Seq<char> {
    render_spec(template_items(tokenize_spec(msg, whites, blacks, symbols), shared))
}

/// When every token text of a message is shared, its template renders to the
/// message itself.
pub proof fn lemma_template_identity(toks: Seq<TokenV>, shared: Set<Seq<char>>, msg: Seq<char>)
    requires
        texts_concat(toks) == msg,
        forall|k: int| 0 <= k < toks.len() ==> shared.contains((#[trigger] toks[k]).text),
    ensures
        render_spec(template_items(toks, shared)) == msg,
    decreases toks.len(),
{
    if toks.len() == 0 {
        assert(msg =~= Seq::<char>::empty());
    } else {
        let pre = toks.drop_last();
        assert(toks =~= pre + seq![toks.last()]);
        lemma_texts_concat_concat(pre, seq![toks.last()]);
        assert(texts_concat(seq![toks.last()]) =~= toks.last().text) by {
            let s = seq![toks.last()];
            assert(s[0] == toks.last());
            assert(s.drop_first() =~= Seq::<TokenV>::empty());
            assert(texts_concat(Seq::<TokenV>::empty()) == Seq::<char>::empty());
            assert(toks.last().text + Seq::<char>::empty() =~= toks.last().text);
        }
        assert forall|k: int| 0 <= k < pre.len() implies shared.contains(
            (#[trigger] pre[k]).text,
        ) by {
            assert(pre[k] == toks[k]);
        }
        lemma_template_identity(pre, shared, texts_concat(pre));
        assert(toks.last() == toks[toks.len() - 1]);
        assert(shared.contains(toks.last().text));
        let pre_items = template_items(pre, shared);
        let items = pre_items.push(Some(toks.last().text));
        assert(template_items(toks, shared) == items);
        assert(items.drop_last() =~= pre_items);
        assert(render_spec(items) == render_spec(pre_items) + toks.last().text);
        assert(msg =~= texts_concat(pre) + toks.last().text);
    }
}

/// The distinct strings of a list, in order of first appearance.
pub open spec fn dedup_strings(ss: Seq<Seq<char>>) -> Seq<Seq<char>>
    decreases ss.len(),
{
    if ss.len() == 0 {
        Seq::empty()
    } else {
        let pre = dedup_strings(ss.drop_last());
        if pre.contains(ss.last()) {
            pre
        } else {
            pre.push(ss.last())
        }
    }
}

/// The distinct templates of the given messages, in order of first
/// appearance.
pub fn templates(msgs: &Vec<String>, tokenizer: &Tokenizer, shared: &Vec<String>) -> (r: Vec<
    String,
>)
    ensures
        r@.map_values(|s: String| s@) == dedup_strings(
            Seq::new(
                msgs@.len(),
                |i: int|
                    template_of(
                        tokenizer.whites_view(),
                        tokenizer.blacks_view(),
                        tokenizer.symbols_view(),
                        str_set(shared@),
                        msgs@.map_values(|m: String| m@)[i],
                    ),
            ),
        ),
{
    let ghost views = msgs@.map_values(|m: String| m@);
    let ghost sset = str_set(shared@);
    let ghost rends = Seq::new(
        views.len(),
        |i: int|
            template_of(
                tokenizer.whites_view(),
                tokenizer.blacks_view(),
                tokenizer.symbols_view(),
                sset,
                views[i],
            ),
    );
    let mut out: Vec<String> = Vec::new();
    let mut m: usize = 0;
    proof {
        assert(rends.take(0) =~= Seq::<Seq<char>>::empty());
        assert(out@.map_values(|s: String| s@) =~= dedup_strings(rends.take(0)));
    }
    while m < msgs.len()
        invariant
            views == msgs@.map_values(|m: String| m@),
            sset == str_set(shared@),
            rends == Seq::new(
                views.len(),
                |i: int|
                    template_of(
                        tokenizer.whites_view(),
                        tokenizer.blacks_view(),
                        tokenizer.symbols_view(),
                        sset,
                        views[i],
                    ),
            ),
            rends.len() == views.len(),
            0 <= m <= msgs@.len(),
            out@.map_values(|s: String| s@) == dedup_strings(rends.take(m as int)),
        decreases msgs@.len() - m,
    {
        let t = render_template(msgs[m].as_str(), tokenizer, shared);
        proof {
            assert(views[m as int] == msgs@[m as int]@);
            assert(t@ == rends[m as int]);
            assert(rends.take(m + 1).drop_last() =~= rends.take(m as int));
            assert(rends.take(m + 1).last() == rends[m as int]);
        }
        let ghost before = out@;
        if !has_text_x(&out, t.as_str()) {
            out.push(t);
            proof {
                assert(!dedup_strings(rends.take(m as int)).contains(rends[m as int])) by {
                    if dedup_strings(rends.take(m as int)).contains(rends[m as int]) {
                        let p = choose|p: int|
                            0 <= p < dedup_strings(rends.take(m as int)).len() && dedup_strings(
                                rends.take(m as int),
                            )[p] == rends[m as int];
                        assert(before.map_values(|s: String| s@)[p] == rends[m as int]);
                        assert(before[p]@ == rends[m as int]);
                        assert(has_text(before, rends[m as int]));
                        assert(false);
                    }
                }
                assert(out@.map_values(|s: String| s@) =~= before.map_values(|s: String| s@).push(
                    rends[m as int],
                ));
            }
        } else {
            proof {
                assert(dedup_strings(rends.take(m as int)).contains(rends[m as int])) by {
                    let p = choose|p: int|
                        0 <= p < before.len() && (#[trigger] before[p])@ == rends[m as int];
                    assert(before.map_values(|s: String| s@)[p] == rends[m as int]);
                    assert(dedup_strings(rends.take(m as int))[p] == rends[m as int]);
                }
            }
        }
        m = m + 1;
    }
    proof {
        assert(rends.take(msgs@.len() as int) =~= rends);
    }
    out
}

/// Renders the template of one message: shared texts verbatim, each maximal
/// non-shared run as one placeholder.
pub fn render_template(msg: &str, tokenizer: &Tokenizer, shared: &Vec<String>) -> (r: String)
    ensures
        r@ == template_of(
            tokenizer.whites_view(),
            tokenizer.blacks_view(),
            tokenizer.symbols_view(),
            str_set(shared@),
            msg@,
        ),
{
    let ghost sset = str_set(shared@);
    let toks = tokenizer.tokenize(msg);
    let ghost tv = views_of(toks@);
    let mut out = String::new();
    let mut last_gap = false;
    let mut k: usize = 0;
    proof {
        assert(tv.take(0) =~= Seq::<TokenV>::empty());
        assert(out@ =~= render_spec(template_items(tv.take(0), sset)));
    }
    while k < toks.len()
        invariant
            sset == str_set(shared@),
            tv == views_of(toks@),
            0 <= k <= toks@.len(),
            out@ == render_spec(template_items(tv.take(k as int), sset)),
            last_gap == (template_items(tv.take(k as int), sset).len() > 0 && template_items(
                tv.take(k as int),
                sset,
            ).last() is None),
        decreases toks@.len() - k,
    {
        proof {
            assert(tv.take(k + 1).drop_last() =~= tv.take(k as int));
            assert(tv.take(k + 1).last() == tv[k as int]);
        }
        let is_shared = has_text_x(shared, toks[k].as_str());
        proof {
            assert(is_shared == sset.contains(tv[k as int].text));
        }
        let ghost pre_items = template_items(tv.take(k as int), sset);
        if is_shared {
            out.append(toks[k].as_str());
            last_gap = false;
            proof {
                let items = pre_items.push(Some(tv[k as int].text));
                assert(template_items(tv.take(k + 1), sset) == items);
                assert(items.drop_last() =~= pre_items);
                assert(render_spec(items) == render_spec(pre_items) + tv[k as int].text);
            }
        } else if !last_gap {
            out.append("<*>");
            last_gap = true;
            proof {
                reveal_strlit("<*>");
                assert("<*>"@ =~= placeholder());
                let items = pre_items.push(None);
                assert(template_items(tv.take(k + 1), sset) == items);
                assert(items.drop_last() =~= pre_items);
                assert(render_spec(items) == render_spec(pre_items) + placeholder());
            }
        } else {
            proof {
                assert(template_items(tv.take(k + 1), sset) == pre_items);
            }
        }
        k = k + 1;
    }
    proof {
        assert(tv.take(toks@.len() as int) =~= tv);
    }
    out
}

/// `n` copies of one character.
pub open spec fn repeat_char(c: char, n: int) -> Seq<char> {
    if n <= 0 {
        Seq::empty()
    } else {
        Seq::new(n as nat, |i: int| c)
    }
}

pub proof fn lemma_repeat_char_concat(c: char, x: int, y: int)
    requires
        0 <= x,
        0 <= y,
    ensures
        repeat_char(c, x) + repeat_char(c, y) == repeat_char(c, x + y),
{
    assert(repeat_char(c, x) + repeat_char(c, y) =~= repeat_char(c, x + y));
}

/// Whether the token after position `k` is whitespace, symbolic, or absent.
pub open spec fn next_is_sep(toks: Seq<TokenV>, k: int) -> bool {
    k + 1 >= toks.len() || toks[k + 1].kind == Kind::Whitespace || toks[k + 1].kind
        == Kind::Symbolic
}

/// The mask bytes of one token and the latch it leaves behind. The latch
/// marks that a parameter region is open within the current
/// whitespace-separated run.
pub open spec fn mask_token(t: TokenV, sep_next: bool, latch: bool, shared: Set<Seq<char>>) -> (
    Seq<char>,
    bool,
) {
    match t.kind {
        Kind::SpecialWhite => (repeat_char('0', byte_len(t.text)), latch),
        Kind::SpecialBlack => (repeat_char('1', byte_len(t.text)), latch),
        Kind::Whitespace => (repeat_char('0', byte_len(t.text)), false),
        Kind::Symbolic => if shared.contains(t.text) && sep_next {
            (repeat_char('0', byte_len(t.text)), latch)
        } else if latch {
            (repeat_char('1', byte_len(t.text)), latch)
        } else {
            (repeat_char('0', byte_len(t.text)), latch)
        },
        _ => if !shared.contains(t.text) || latch {
            (repeat_char('1', byte_len(t.text)), true)
        } else {
            (repeat_char('0', byte_len(t.text)), latch)
        },
    }
}

/// The mask bytes from token `k` on, given the latch state.
pub open spec fn mask_from(toks: Seq<TokenV>, k: int, latch: bool, shared: Set<Seq<char>>) -> Seq<
    char,
>
    decreases toks.len() - k,
{
    if !(0 <= k < toks.len()) {
        Seq::empty()
    } else {
        let st = mask_token(toks[k], next_is_sep(toks, k), latch, shared);
        st.0 + mask_from(toks, k + 1, st.1, shared)
    }
}

/// The parameter mask of a token list.
pub open spec fn mask_spec(toks: Seq<TokenV>, shared: Set<Seq<char>>) -> Seq<char> {
    mask_from(toks, 0, false, shared)
}

/// The mask of one message under a shared-slice set.
pub open spec fn mask_of(
    whites: Seq<Seq<char>>,
    blacks: Seq<Seq<char>>,
    symbols: Seq<char>,
    shared: Set<Seq<char>>,
    msg: Seq<char>,
) -> Seq<char> {
    mask_spec(tokenize_spec(msg, whites, blacks, symbols), shared)
}

/// The texts of the tokens from position `k` on, concatenated.
pub open spec fn texts_concat_from(toks: Seq<TokenV>, k: int) -> Seq<char>
    decreases toks.len() - k,
{
    if !(0 <= k < toks.len()) {
        Seq::empty()
    } else {
        toks[k].text + texts_concat_from(toks, k + 1)
    }
}

pub proof fn lemma_texts_concat_from(toks: Seq<TokenV>)
    ensures
        texts_concat_from(toks, 0) == texts_concat(toks),
{
    lemma_texts_concat_from_skip(toks, 0);
    assert(toks.skip(0) =~= toks);
}

pub proof fn lemma_texts_concat_from_skip(toks: Seq<TokenV>, k: int)
    requires
        0 <= k <= toks.len(),
    ensures
        texts_concat_from(toks, k) == texts_concat(toks.skip(k)),
    decreases toks.len() - k,
{
    if k >= toks.len() {
        assert(toks.skip(k) =~= Seq::<TokenV>::empty());
    } else {
        lemma_texts_concat_from_skip(toks, k + 1);
        assert(toks.skip(k).drop_first() =~= toks.skip(k + 1));
        assert(toks.skip(k)[0] == toks[k]);
    }
}

/// The mask is as long, in bytes, as the text the tokens cover, and every
/// byte of it is `'0'` or `'1'`.
pub proof fn lemma_mask_from_len(toks: Seq<TokenV>, k: int, latch: bool, shared: Set<Seq<char>>)
    requires
        0 <= k,
    ensures
        mask_from(toks, k, latch, shared).len() == byte_len(texts_concat_from(toks, k)),
        forall|i: int|
            0 <= i < mask_from(toks, k, latch, shared).len() ==> (#[trigger] mask_from(
                toks,
                k,
                latch,
                shared,
            )[i]) == '0' || mask_from(toks, k, latch, shared)[i] == '1',
    decreases toks.len() - k,
{
    if !(0 <= k < toks.len()) {
        assert(texts_concat_from(toks, k) =~= Seq::<char>::empty());
    } else {
        let st = mask_token(toks[k], next_is_sep(toks, k), latch, shared);
        lemma_mask_from_len(toks, k + 1, st.1, shared);
        lemma_byte_len_nonneg(toks[k].text);
        lemma_byte_len_concat(toks[k].text, texts_concat_from(toks, k + 1));
        assert(st.0.len() == byte_len(toks[k].text));
        assert(st.0 == repeat_char('0', byte_len(toks[k].text)) || st.0 == repeat_char(
            '1',
            byte_len(toks[k].text),
        ));
        let e = mask_from(toks, k, latch, shared);
        assert forall|i: int| 0 <= i < e.len() implies (#[trigger] e[i]) == '0' || e[i]
            == '1' by {
            if i < st.0.len() {
                assert(e[i] == st.0[i]);
            } else {
                assert(e[i] == mask_from(toks, k + 1, st.1, shared)[i - st.0.len()]);
            }
        }
    }
}

/// The parameter mask of a message has exactly its byte length, and holds
/// only `'0'` and `'1'`.
pub proof fn lemma_mask_shape(toks: Seq<TokenV>, shared: Set<Seq<char>>, msg: Seq<char>)
    requires
        texts_concat(toks) == msg,
    ensures
        mask_spec(toks, shared).len() == byte_len(msg),
        forall|i: int|
            0 <= i < mask_spec(toks, shared).len() ==> (#[trigger] mask_spec(toks, shared)[i])
                == '0' || mask_spec(toks, shared)[i] == '1',
{
    lemma_mask_from_len(toks, 0, false, shared);
    lemma_texts_concat_from(toks);
}

/// Appends the UTF-8 width of `c` mask bytes to `out`.
fn push_mask_char(out: &mut String, one: bool, c: char)
    ensures
        final(out)@ == old(out)@ + repeat_char(if one { '1' } else { '0' }, char_width(c)),
{
    let ghost base = old(out)@;
    let ghost bit = if one { '1' } else { '0' };
    let w = char_width_x(c);
    let mut i: usize = 0;
    proof {
        reveal_strlit("0");
        reveal_strlit("1");
        assert(out@ =~= base + repeat_char(bit, 0));
    }
    while i < w
        invariant
            w == char_width(c),
            0 <= i <= w,
            out@ == base + repeat_char(bit, i as int),
            bit == (if one { '1' } else { '0' }),
        decreases w - i,
    {
        if one {
            out.append("1");
        } else {
            out.append("0");
        }
        proof {
            reveal_strlit("0");
            reveal_strlit("1");
            assert(out@ =~= base + repeat_char(bit, i + 1));
        }
        i = i + 1;
    }
}

/// Appends one mask byte per byte of `text` to `out`.
fn push_mask_text(out: &mut String, one: bool, text: &str)
    ensures
        final(out)@ == old(out)@ + repeat_char(if one { '1' } else { '0' }, byte_len(text@)),
{
    let ghost base = old(out)@;
    let ghost bit = if one { '1' } else { '0' };
    let n = text.unicode_len();
    let mut j: usize = 0;
    proof {
        assert(byte_len(text@.take(0)) == 0) by {
            assert(text@.take(0) =~= Seq::<char>::empty());
        }
        assert(out@ =~= base + repeat_char(bit, 0));
    }
    while j < n
        invariant
            n == text@.len(),
            0 <= j <= n,
            out@ == base + repeat_char(bit, byte_len(text@.take(j as int))),
            bit == (if one { '1' } else { '0' }),
        decreases n - j,
    {
        let c = text.get_char(j);
        push_mask_char(out, one, c);
        proof {
            assert(text@.take(j + 1).drop_last() =~= text@.take(j as int));
            assert(text@.take(j as int) + seq![text@[j as int]] =~= text@.take(j + 1));
            lemma_byte_len_concat(text@.take(j as int), seq![text@[j as int]]);
            lemma_byte_len_singleton(text@[j as int]);
            lemma_byte_len_nonneg(text@.take(j as int));
            lemma_repeat_char_concat(bit, byte_len(text@.take(j as int)), char_width(c));
            assert(out@ =~= base + repeat_char(bit, byte_len(text@.take(j + 1))));
        }
        j = j + 1;
    }
    proof {
        assert(text@.take(n as int) =~= text@);
    }
}

/// The parameter masks of the given messages, one per message, in order.
pub fn parameter_masks(msgs: &Vec<String>, tokenizer: &Tokenizer, shared: &Vec<String>) -> (r: Vec<
    String,
>)
    ensures
        r@.len() == msgs@.len(),
        forall|i: int|
            0 <= i < msgs@.len() ==> (#[trigger] r@[i])@ == mask_of(
                tokenizer.whites_view(),
                tokenizer.blacks_view(),
                tokenizer.symbols_view(),
                str_set(shared@),
                msgs@.map_values(|m: String| m@)[i],
            ),
        forall|i: int|
            0 <= i < msgs@.len() ==> (#[trigger] r@[i])@.len() == byte_len(
                msgs@.map_values(|m: String| m@)[i],
            ) && forall|p: int| 0 <= p < r@[i]@.len() ==> (#[trigger] r@[i]@[p]) == '0' || r@[i]@[p]
                == '1',
{
    let ghost views = msgs@.map_values(|m: String| m@);
    let ghost sset = str_set(shared@);
    let mut out: Vec<String> = Vec::new();
    let mut m: usize = 0;
    while m < msgs.len()
        invariant
            views == msgs@.map_values(|m: String| m@),
            sset == str_set(shared@),
            0 <= m <= msgs@.len(),
            out@.len() == m,
            forall|i: int|
                0 <= i < m ==> (#[trigger] out@[i])@ == mask_of(
                    tokenizer.whites_view(),
                    tokenizer.blacks_view(),
                    tokenizer.symbols_view(),
                    sset,
                    views[i],
                ),
            forall|i: int|
                0 <= i < m ==> (#[trigger] out@[i])@.len() == byte_len(views[i]) && forall|p: int|
                    0 <= p < out@[i]@.len() ==> (#[trigger] out@[i]@[p]) == '0' || out@[i]@[p]
                        == '1',
        decreases msgs@.len() - m,
    {
        let mask = render_mask(msgs[m].as_str(), tokenizer, shared);
        proof {
            assert(views[m as int] == msgs@[m as int]@);
        }
        out.push(mask);
        m = m + 1;
    }
    out
}

/// Renders the parameter mask of one message.
pub fn render_mask(msg: &str, tokenizer: &Tokenizer, shared: &Vec<String>) -> (r: String)
    ensures
        r@ == mask_of(
            tokenizer.whites_view(),
            tokenizer.blacks_view(),
            tokenizer.symbols_view(),
            str_set(shared@),
            msg@,
        ),
        r@.len() == byte_len(msg@),
        forall|i: int| 0 <= i < r@.len() ==> (#[trigger] r@[i]) == '0' || r@[i] == '1',
{
    let ghost sset = str_set(shared@);
    let toks = tokenizer.tokenize(msg);
    let ghost tv = views_of(toks@);
    let mut out = String::new();
    let mut latch = false;
    let mut k: usize = 0;
    proof {
        assert(out@ + mask_from(tv, 0, false, sset) =~= mask_spec(tv, sset));
    }
    while k < toks.len()
        invariant
            sset == str_set(shared@),
            tv == views_of(toks@),
            tv.len() == toks@.len(),
            0 <= k <= toks@.len(),
            out@ + mask_from(tv, k as int, latch, sset) == mask_spec(tv, sset),
        decreases toks@.len() - k,
    {
        let ghost before = out@;
        let ghost st = mask_token(tv[k as int], next_is_sep(tv, k as int), latch, sset);
        let sep_next = if k + 1 >= toks.len() {
            true
        } else {
            let nk = toks[k + 1].kind();
            nk == Kind::Whitespace || nk == Kind::Symbolic
        };
        proof {
            assert(sep_next == next_is_sep(tv, k as int));
        }
        match &toks[k] {
            Token::SpecialWhite(s) => {
                push_mask_text(&mut out, false, s.as_str());
            },
            Token::SpecialBlack(s) => {
                push_mask_text(&mut out, true, s.as_str());
            },
            Token::Whitespace(s) => {
                push_mask_text(&mut out, false, s.as_str());
                latch = false;
            },
            Token::Symbolic(s) => {
                let is_shared = has_text_x(shared, s.as_str());
                if is_shared && sep_next {
                    push_mask_text(&mut out, false, s.as_str());
                } else if latch {
                    push_mask_text(&mut out, true, s.as_str());
                } else {
                    push_mask_text(&mut out, false, s.as_str());
                }
            },
            Token::Alphabetic(s) => {
                let is_shared = has_text_x(shared, s.as_str());
                if !is_shared || latch {
                    push_mask_text(&mut out, true, s.as_str());
                    latch = true;
                } else {
                    push_mask_text(&mut out, false, s.as_str());
                }
            },
            Token::Numeric(s) => {
                let is_shared = has_text_x(shared, s.as_str());
                if !is_shared || latch {
                    push_mask_text(&mut out, true, s.as_str());
                    latch = true;
                } else {
                    push_mask_text(&mut out, false, s.as_str());
                }
            },
            Token::Impure(s) => {
                let is_shared = has_text_x(shared, s.as_str());
                if !is_shared || latch {
                    push_mask_text(&mut out, true, s.as_str());
                    latch = true;
                } else {
                    push_mask_text(&mut out, false, s.as_str());
                }
            },
        }
        proof {
            assert(out@ =~= before + st.0);
            assert(latch == st.1);
            assert(mask_from(tv, k as int, (if st.1 { !st.1 } else { st.1 }) || st.1, sset) == st.0
                + mask_from(tv, k + 1, st.1, sset)) by {
                assert(mask_from(tv, k as int, st.1, sset) == mask_token(
                    tv[k as int],
                    next_is_sep(tv, k as int),
                    st.1,
                    sset,
                ).0 + mask_from(tv, k + 1, mask_token(
                    tv[k as int],
                    next_is_sep(tv, k as int),
                    st.1,
                    sset,
                ).1, sset));
            }
            assert(out@ + mask_from(tv, k + 1, latch, sset) =~= mask_spec(tv, sset));
        }
        k = k + 1;
    }
    proof {
        assert(mask_from(tv, toks@.len() as int, latch, sset) =~= Seq::<char>::empty());
        assert(out@ =~= mask_spec(tv, sset));
        lemma_mask_shape(tv, sset, msg@);
    }
    out
}

/// The all-literal mask of a message: one `'0'` per byte.
pub fn zero_mask(msg: &str) -> (r: String)
    ensures
        r@ == repeat_char('0', byte_len(msg@)),
{
    let mut out = String::new();
    proof {
        assert(out@ + repeat_char('0', 0) =~= repeat_char('0', 0));
        assert(out@ =~= repeat_char('0', 0));
    }
    push_mask_text(&mut out, false, msg);
    proof {
        assert(out@ =~= repeat_char('0', byte_len(msg@)));
    }
    out
}

} // verus!
