//! Per-message anchor sets and the clustering of messages by them. A
//! message's anchor set is the largest strongly connected component of its
//! interdependency graph, with every special-white token inserted and every
//! special-black token removed. Messages cluster together exactly when their
//! anchor sets are equal.

use vstd::prelude::*;
use crate::graph::{build_graph, anchor_nodes, edges_spec, largest_scc_tokens, token_set,
    tokens_distinct, contains_token};
use crate::record::TokenRecord;
use crate::token::{Token, TokenV, Kind, views_of};
use crate::tokenizer::{Tokenizer, tokenize_spec};

verus! {

/// The candidate tokens of a message: its distinct tokens whose text the
/// record knows, in order of first appearance.
pub open spec fn candidates_spec(toks: Seq<TokenV>, rec: TokenRecord) -> Seq<TokenV>
    decreases toks.len(),
{
    if toks.len() == 0 {
        Seq::empty()
    } else {
        let pre = candidates_spec(toks.drop_last(), rec);
        let t = toks.last();
        if rec.occ_spec(t.text) is Some && !pre.contains(t) {
            pre.push(t)
        } else {
            pre
        }
    }
}

/// Collects the candidate tokens of a tokenized message.
pub fn candidates(toks: &Vec<Token>, rec: &TokenRecord) -> (r: Vec<Token>)
    ensures
        views_of(r@) == candidates_spec(views_of(toks@), *rec),
{
    let ghost tv = views_of(toks@);
    let mut out: Vec<Token> = Vec::new();
    let mut k: usize = 0;
    proof {
        assert(tv.take(0) =~= Seq::<TokenV>::empty());
        assert(views_of(out@) =~= candidates_spec(tv.take(0), *rec));
    }
    while k < toks.len()
        invariant
            tv == views_of(toks@),
            0 <= k <= toks@.len(),
            views_of(out@) == candidates_spec(tv.take(k as int), *rec),
        decreases toks@.len() - k,
    {
        let ghost before = out@;
        proof {
            assert(tv.take(k + 1).drop_last() =~= tv.take(k as int));
            assert(tv.take(k + 1).last() == tv[k as int]);
        }
        let known = rec.occurence(toks[k].as_str());
        if known.is_some() {
            if !contains_token(&out, &toks[k]) {
                out.push(toks[k].duplicate());
                proof {
                    assert(views_of(out@) =~= views_of(before).push(tv[k as int]));
                }
            }
        }
        k = k + 1;
    }
    proof {
        assert(tv.take(toks@.len() as int) =~= tv);
    }
    out
}

/// The anchor set after the specials walk: every special-white token of the
/// message inserted, every special-black token removed, in message order.
pub open spec fn apply_specials(s: Set<TokenV>, toks: Seq<TokenV>, k: int) -> Set<TokenV>
    decreases toks.len() - k,
{
    if !(0 <= k < toks.len()) {
        s
    } else {
        let t = toks[k];
        let s2 = if t.kind == Kind::SpecialWhite {
            s.insert(t)
        } else if t.kind == Kind::SpecialBlack {
            s.remove(t)
        } else {
            s
        };
        apply_specials(s2, toks, k + 1)
    }
}

/// Adds a token to a duplicate-free token list, if absent.
fn set_insert(v: &mut Vec<Token>, t: &Token)
    requires
        tokens_distinct(views_of(old(v)@)),
    ensures
        tokens_distinct(views_of(final(v)@)),
        token_set(views_of(final(v)@)) == token_set(views_of(old(v)@)).insert(t@),
{
    let ghost before = v@;
    if !contains_token(v, t) {
        v.push(t.duplicate());
        proof {
            assert(views_of(v@).drop_last() =~= views_of(before));
            assert(views_of(v@).last() == t@);
            assert forall|p: int, q: int| 0 <= p < q < views_of(v@).len() implies #[trigger]
            views_of(v@)[p] != #[trigger] views_of(v@)[q] by {
                if q < views_of(v@).len() - 1 {
                    assert(views_of(v@)[p] == views_of(before)[p]);
                    assert(views_of(v@)[q] == views_of(before)[q]);
                } else {
                    assert(views_of(v@)[p] == views_of(before)[p]);
                    assert(views_of(before).contains(views_of(before)[p]));
                }
            }
            assert forall|x: TokenV| token_set(views_of(v@)).contains(x) == token_set(
                views_of(before),
            ).insert(t@).contains(x) by {
                if token_set(views_of(v@)).contains(x) {
                    let p = choose|p: int| 0 <= p < views_of(v@).len() && views_of(v@)[p] == x;
                    if p < views_of(v@).len() - 1 {
                        assert(views_of(before)[p] == x);
                        assert(views_of(before).contains(x));
                    }
                }
                if x != t@ && token_set(views_of(before)).contains(x) {
                    let p = choose|p: int|
                        0 <= p < views_of(before).len() && views_of(before)[p] == x;
                    assert(views_of(v@)[p] == x);
                    assert(views_of(v@).contains(x));
                }
                if x == t@ {
                    assert(views_of(v@).last() == x);
                    assert(views_of(v@).contains(x));
                }
            }
            assert(token_set(views_of(v@)) =~= token_set(views_of(before)).insert(t@));
        }
    } else {
        proof {
            assert(token_set(views_of(v@)) =~= token_set(views_of(before)).insert(t@));
        }
    }
}

/// A duplicate-free token list without the given token.
fn set_remove(v: &Vec<Token>, t: &Token) -> (r: Vec<Token>)
    requires
        tokens_distinct(views_of(v@)),
    ensures
        tokens_distinct(views_of(r@)),
        token_set(views_of(r@)) == token_set(views_of(v@)).remove(t@),
{
    let mut out: Vec<Token> = Vec::new();
    let mut i: usize = 0;
    while i < v.len()
        invariant
            tokens_distinct(views_of(v@)),
            0 <= i <= v@.len(),
            tokens_distinct(views_of(out@)),
            forall|x: TokenV|
                #[trigger] views_of(out@).contains(x) <==> (views_of(v@).take(i as int).contains(x)
                    && x != t@),
        decreases v@.len() - i,
    {
        let ghost before = out@;
        if !v[i].same_as(t) {
            out.push(v[i].duplicate());
            proof {
                assert(views_of(out@).drop_last() =~= views_of(before));
                assert(views_of(out@).last() == views_of(v@)[i as int]);
                assert(!views_of(before).contains(views_of(v@)[i as int])) by {
                    if views_of(before).contains(views_of(v@)[i as int]) {
                        assert(views_of(v@).take(i as int).contains(views_of(v@)[i as int]));
                        let p = choose|p: int|
                            0 <= p < i && views_of(v@).take(i as int)[p] == views_of(v@)[i as int];
                        assert(views_of(v@)[p] == views_of(v@)[i as int]);
                        assert(false);
                    }
                }
                assert forall|p: int, q: int| 0 <= p < q < views_of(out@).len() implies #[trigger]
                views_of(out@)[p] != #[trigger] views_of(out@)[q] by {
                    if q < views_of(out@).len() - 1 {
                        assert(views_of(out@)[p] == views_of(before)[p]);
                        assert(views_of(out@)[q] == views_of(before)[q]);
                    } else {
                        assert(views_of(out@)[p] == views_of(before)[p]);
                        assert(views_of(before).contains(views_of(before)[p]));
                    }
                }
            }
        }
        proof {
            assert forall|x: TokenV| #[trigger] views_of(out@).contains(x) <==> (views_of(
                v@,
            ).take(i + 1).contains(x) && x != t@) by {
                if views_of(out@).contains(x) {
                    let p = choose|p: int| 0 <= p < views_of(out@).len() && views_of(out@)[p] == x;
                    if p < views_of(before).len() {
                        assert(views_of(before)[p] == x);
                        assert(views_of(before).contains(x));
                        assert(views_of(v@).take(i as int).contains(x));
                        let q = choose|q: int|
                            0 <= q < i && views_of(v@).take(i as int)[q] == x;
                        assert(views_of(v@).take(i + 1)[q] == x);
                        assert(views_of(v@).take(i + 1).contains(x));
                    } else {
                        assert(x == views_of(v@)[i as int]);
                        assert(views_of(v@).take(i + 1)[i as int] == x);
                        assert(views_of(v@).take(i + 1).contains(x));
                        assert(x != t@);
                    }
                }
                if views_of(v@).take(i + 1).contains(x) && x != t@ {
                    let q = choose|q: int|
                        0 <= q < i + 1 && #[trigger] views_of(v@).take(i + 1)[q] == x;
                    if q < i {
                        assert(views_of(v@).take(i as int)[q] == x);
                        assert(views_of(v@).take(i as int).contains(x));
                        assert(views_of(before).contains(x));
                        let p = choose|p: int|
                            0 <= p < views_of(before).len() && views_of(before)[p] == x;
                        assert(views_of(out@)[p] == x);
                        assert(views_of(out@).contains(x));
                    } else {
                        assert(x == views_of(v@)[i as int]);
                        assert(views_of(out@).last() == x);
                        assert(views_of(out@).contains(x));
                    }
                }
            }
        }
        i = i + 1;
    }
    proof {
        assert(views_of(v@).take(v@.len() as int) =~= views_of(v@));
        assert forall|x: TokenV| token_set(views_of(out@)).contains(x) == token_set(
            views_of(v@),
        ).remove(t@).contains(x) by {}
        assert(token_set(views_of(out@)) =~= token_set(views_of(v@)).remove(t@));
    }
    out
}

/// The anchor set of a tokenized message: the tokens of the largest strongly
/// connected component of its interdependency graph, with special-white
/// tokens inserted and special-black tokens removed, without repetition.
pub fn anchor_tokens(toks: &Vec<Token>, rec: &TokenRecord, tn: u64, td: u64) -> (r: Vec<Token>)
    requires
        td > 0,
    ensures
        tokens_distinct(views_of(r@)),
        token_set(views_of(r@)) == ({
            let tv = views_of(toks@);
            let cands = candidates_spec(tv, *rec);
            apply_specials(largest_scc_tokens(cands, edges_spec(*rec, tn as int, td as int, cands)), tv, 0)
        }),
{
    let ghost tv = views_of(toks@);
    let cands = candidates(toks, rec);
    let edges = build_graph(&cands, rec, tn, td);
    let mut anchor = anchor_nodes(&cands, &edges);
    let ghost base = largest_scc_tokens(
        candidates_spec(tv, *rec),
        edges_spec(*rec, tn as int, td as int, candidates_spec(tv, *rec)),
    );
    let mut k: usize = 0;
    while k < toks.len()
        invariant
            td > 0,
            tv == views_of(toks@),
            0 <= k <= toks@.len(),
            tokens_distinct(views_of(anchor@)),
            apply_specials(token_set(views_of(anchor@)), tv, k as int) == apply_specials(
                base,
                tv,
                0,
            ),
        decreases toks@.len() - k,
    {
        let ghost before = token_set(views_of(anchor@));
        let kind = toks[k].kind();
        if kind == Kind::SpecialWhite {
            set_insert(&mut anchor, &toks[k]);
        } else if kind == Kind::SpecialBlack {
            anchor = set_remove(&anchor, &toks[k]);
        }
        k = k + 1;
    }
    anchor
}

/// The anchor set of one message, as the tokenizer configuration and the
/// record determine it.
pub open spec fn anchor_key_spec(
    whites: Seq<Seq<char>>,
    blacks: Seq<Seq<char>>,
    symbols: Seq<char>,
    rec: TokenRecord,
    tn: int,
    td: int,
    msg: Seq<char>,
) -> Set<TokenV> {
    let toks = tokenize_spec(msg, whites, blacks, symbols);
    let cands = candidates_spec(toks, rec);
    apply_specials(largest_scc_tokens(cands, edges_spec(rec, tn, td, cands)), toks, 0)
}

/// The anchor sets of all messages, by message index.
pub open spec fn anchor_keys_spec(
    whites: Seq<Seq<char>>,
    blacks: Seq<Seq<char>>,
    symbols: Seq<char>,
    rec: TokenRecord,
    tn: int,
    td: int,
    msgs: Seq<Seq<char>>,
) -> Seq<Set<TokenV>> {
    Seq::new(
        msgs.len(),
        |i: int| anchor_key_spec(whites, blacks, symbols, rec, tn, td, msgs[i]),
    )
}

/// The distinct anchor sets, in order of first appearance.
pub open spec fn dedup_keys(keys: Seq<Set<TokenV>>) -> Seq<Set<TokenV>>
    decreases keys.len(),
{
    if keys.len() == 0 {
        Seq::empty()
    } else {
        let pre = dedup_keys(keys.drop_last());
        if pre.contains(keys.last()) {
            pre
        } else {
            pre.push(keys.last())
        }
    }
}

/// The message indices whose anchor set is `k`, ascending.
pub open spec fn indices_where(keys: Seq<Set<TokenV>>, k: Set<TokenV>) -> Seq<usize>
    decreases keys.len(),
{
    if keys.len() == 0 {
        Seq::empty()
    } else {
        let pre = indices_where(keys.drop_last(), k);
        if keys.last() == k {
            pre.push((keys.len() - 1) as usize)
        } else {
            pre
        }
    }
}

pub proof fn lemma_dedup_distinct(keys: Seq<Set<TokenV>>)
    ensures
        forall|g1: int, g2: int|
            0 <= g1 < g2 < dedup_keys(keys).len() ==> #[trigger] dedup_keys(keys)[g1]
                != #[trigger] dedup_keys(keys)[g2],
    decreases keys.len(),
{
    if keys.len() > 0 {
        lemma_dedup_distinct(keys.drop_last());
        let pre = dedup_keys(keys.drop_last());
        let dk = dedup_keys(keys);
        if !pre.contains(keys.last()) {
            assert forall|g1: int, g2: int| 0 <= g1 < g2 < dk.len() implies #[trigger] dk[g1]
                != #[trigger] dk[g2] by {
                if g2 < dk.len() - 1 {
                    assert(dk[g1] == pre[g1]);
                    assert(dk[g2] == pre[g2]);
                } else {
                    assert(dk[g1] == pre[g1]);
                    assert(pre.contains(pre[g1]));
                }
            }
        }
    }
}

pub proof fn lemma_key_in_dedup(keys: Seq<Set<TokenV>>, i: int)
    requires
        0 <= i < keys.len(),
    ensures
        dedup_keys(keys).contains(keys[i]),
    decreases keys.len(),
{
    let pre = dedup_keys(keys.drop_last());
    if i == keys.len() - 1 {
        if pre.contains(keys.last()) {
        } else {
            assert(dedup_keys(keys).last() == keys[i]);
        }
    } else {
        lemma_key_in_dedup(keys.drop_last(), i);
        assert(keys.drop_last()[i] == keys[i]);
        let g = choose|g: int| 0 <= g < pre.len() && pre[g] == keys[i];
        if pre.contains(keys.last()) {
        } else {
            assert(dedup_keys(keys)[g] == pre[g]);
        }
    }
}

/// The members listed for a key are exactly the messages carrying that key.
pub proof fn lemma_indices_where(keys: Seq<Set<TokenV>>, k: Set<TokenV>)
    requires
        keys.len() <= usize::MAX,
    ensures
        forall|p: int|
            0 <= p < indices_where(keys, k).len() ==> (#[trigger] indices_where(keys, k)[p])
                < keys.len() && keys[indices_where(keys, k)[p] as int] == k,
        forall|i: int| 0 <= i < keys.len() && keys[i] == k ==> #[trigger] indices_where(
            keys,
            k,
        ).contains(i as usize),
    decreases keys.len(),
{
    if keys.len() > 0 {
        lemma_indices_where(keys.drop_last(), k);
        let pre = indices_where(keys.drop_last(), k);
        let iw = indices_where(keys, k);
        assert forall|p: int| 0 <= p < iw.len() implies (#[trigger] iw[p]) < keys.len()
            && keys[iw[p] as int] == k by {
            if p < pre.len() {
                assert(iw[p] == pre[p]);
                assert(keys.drop_last()[pre[p] as int] == keys[pre[p] as int]);
            } else {
                assert(iw[p] == (keys.len() - 1) as usize);
            }
        }
        assert forall|i: int| 0 <= i < keys.len() && keys[i] == k implies #[trigger] indices_where(
            keys,
            k,
        ).contains(i as usize) by {
            if i == keys.len() - 1 {
                assert(iw.last() == i as usize);
            } else {
                assert(keys.drop_last()[i] == keys[i]);
                assert(pre.contains(i as usize));
                let p = choose|p: int| 0 <= p < pre.len() && pre[p] == i as usize;
                assert(iw[p] == i as usize);
            }
        }
    }
}

/// Whether every token of `a` is in `b`.
fn tokens_subset(a: &Vec<Token>, b: &Vec<Token>) -> (r: bool)
    ensures
        r == forall|x: TokenV| views_of(a@).contains(x) ==> #[trigger] views_of(b@).contains(x),
{
    let mut i: usize = 0;
    while i < a.len()
        invariant
            0 <= i <= a@.len(),
            forall|p: int| 0 <= p < i ==> views_of(b@).contains(#[trigger] views_of(a@)[p]),
        decreases a@.len() - i,
    {
        if !contains_token(b, &a[i]) {
            proof {
                assert(views_of(a@).contains(views_of(a@)[i as int]));
            }
            return false;
        }
        i = i + 1;
    }
    proof {
        assert forall|x: TokenV| views_of(a@).contains(x) implies #[trigger] views_of(
            b@,
        ).contains(x) by {
            let p = choose|p: int| 0 <= p < views_of(a@).len() && views_of(a@)[p] == x;
        }
    }
    true
}

/// Whether two duplicate-free token lists hold the same set of tokens.
fn key_set_eq(a: &Vec<Token>, b: &Vec<Token>) -> (r: bool)
    ensures
        r == (token_set(views_of(a@)) == token_set(views_of(b@))),
{
    let ab = tokens_subset(a, b);
    let ba = tokens_subset(b, a);
    if ab && ba {
        proof {
            assert(token_set(views_of(a@)) =~= token_set(views_of(b@)));
        }
        true
    } else {
        proof {
            if token_set(views_of(a@)) == token_set(views_of(b@)) {
                assert forall|x: TokenV| views_of(a@).contains(x) implies #[trigger] views_of(
                    b@,
                ).contains(x) by {
                    assert(token_set(views_of(a@)).contains(x));
                }
                assert forall|x: TokenV| views_of(b@).contains(x) implies #[trigger] views_of(
                    a@,
                ).contains(x) by {
                    assert(token_set(views_of(b@)).contains(x));
                }
            }
        }
        false
    }
}

/// Groups message indices by their anchor set: one entry per distinct anchor
/// set, in order of first appearance, each with the ascending indices of the
/// messages carrying it.
pub fn group_by_anchor_tokens(
    messages: &Vec<String>,
    tokenizer: &Tokenizer,
    rec: &TokenRecord,
    tn: u64,
    td: u64,
) -> (r: Vec<(Vec<Token>, Vec<usize>)>)
    requires
        td > 0,
    ensures
        ({
            let keys = anchor_keys_spec(
                tokenizer.whites_view(),
                tokenizer.blacks_view(),
                tokenizer.symbols_view(),
                *rec,
                tn as int,
                td as int,
                messages@.map_values(|m: String| m@),
            );
            &&& r@.len() == dedup_keys(keys).len()
            &&& forall|g: int|
                0 <= g < r@.len() ==> {
                    &&& tokens_distinct(views_of((#[trigger] r@[g]).0@))
                    &&& token_set(views_of(r@[g].0@)) == dedup_keys(keys)[g]
                    &&& r@[g].1@ == indices_where(keys, dedup_keys(keys)[g])
                }
        }),
{
    let ghost views = messages@.map_values(|m: String| m@);
    let ghost keys = anchor_keys_spec(
        tokenizer.whites_view(),
        tokenizer.blacks_view(),
        tokenizer.symbols_view(),
        *rec,
        tn as int,
        td as int,
        views,
    );
    let mut groups: Vec<(Vec<Token>, Vec<usize>)> = Vec::new();
    let mut m: usize = 0;
    proof {
        assert(keys.take(0) =~= Seq::<Set<TokenV>>::empty());
    }
    while m < messages.len()
        invariant
            td > 0,
            views == messages@.map_values(|m: String| m@),
            keys == anchor_keys_spec(
                tokenizer.whites_view(),
                tokenizer.blacks_view(),
                tokenizer.symbols_view(),
                *rec,
                tn as int,
                td as int,
                views,
            ),
            keys.len() == views.len(),
            0 <= m <= messages@.len(),
            groups@.len() == dedup_keys(keys.take(m as int)).len(),
            forall|g: int|
                0 <= g < groups@.len() ==> {
                    &&& tokens_distinct(views_of((#[trigger] groups@[g]).0@))
                    &&& token_set(views_of(groups@[g].0@)) == dedup_keys(keys.take(m as int))[g]
                    &&& groups@[g].1@ == indices_where(
                        keys.take(m as int),
                        dedup_keys(keys.take(m as int))[g],
                    )
                },
        decreases messages@.len() - m,
    {
        let toks = tokenizer.tokenize(messages[m].as_str());
        let key = anchor_tokens(&toks, rec, tn, td);
        proof {
            assert(messages@[m as int]@ == views[m as int]);
            assert(token_set(views_of(key@)) == keys[m as int]);
            assert(keys.take(m + 1).drop_last() =~= keys.take(m as int));
            assert(keys.take(m + 1).last() == keys[m as int]);
        }
        let ghost pre = dedup_keys(keys.take(m as int));
        let mut g: usize = 0;
        let mut found = false;
        while !found && g < groups.len()
            invariant
                0 <= g <= groups@.len(),
                groups@.len() == pre.len(),
                token_set(views_of(key@)) == keys[m as int],
                forall|g0: int|
                    0 <= g0 < groups@.len() ==> {
                        &&& tokens_distinct(views_of((#[trigger] groups@[g0]).0@))
                        &&& token_set(views_of(groups@[g0].0@)) == pre[g0]
                        &&& groups@[g0].1@ == indices_where(keys.take(m as int), pre[g0])
                    },
                !found ==> forall|g0: int| 0 <= g0 < g ==> #[trigger] pre[g0] != keys[m as int],
                found ==> g < groups@.len() && pre[g as int] == keys[m as int],
            decreases (if found { 0int } else { groups@.len() - g + 1 }),
        {
            if key_set_eq(&groups[g].0, &key) {
                found = true;
            } else {
                g = g + 1;
            }
        }
        if found {
            let ghost before = groups@;
            let idxs = &mut groups[g].1;
            idxs.push(m);
            proof {
                assert(pre.contains(keys[m as int])) by {
                    assert(pre[g as int] == keys[m as int]);
                }
                assert(dedup_keys(keys.take(m + 1)) == pre);
                lemma_dedup_distinct(keys.take(m as int));
                assert forall|g0: int| 0 <= g0 < groups@.len() implies {
                    &&& tokens_distinct(views_of((#[trigger] groups@[g0]).0@))
                    &&& token_set(views_of(groups@[g0].0@)) == pre[g0]
                    &&& groups@[g0].1@ == indices_where(keys.take(m + 1), pre[g0])
                } by {
                    if g0 != g {
                        assert(groups@[g0] == before[g0]);
                        assert(pre[g0] != keys[m as int]);
                        assert(indices_where(keys.take(m + 1), pre[g0]) == indices_where(
                            keys.take(m as int),
                            pre[g0],
                        ));
                    } else {
                        assert(groups@[g0].0 == before[g0].0);
                        assert(groups@[g0].1@ == before[g0].1@.push(m));
                        assert(indices_where(keys.take(m + 1), pre[g0]) == indices_where(
                            keys.take(m as int),
                            pre[g0],
                        ).push(m));
                    }
                }
            }
        } else {
            let ghost before = groups@;
            groups.push((key, make_singleton(m)));
            proof {
                assert(!pre.contains(keys[m as int])) by {
                    if pre.contains(keys[m as int]) {
                        let g0 = choose|g0: int| 0 <= g0 < pre.len() && pre[g0] == keys[m as int];
                        assert(false);
                    }
                }
                let dk2 = dedup_keys(keys.take(m + 1));
                assert(dk2 == pre.push(keys[m as int]));
                assert forall|g0: int| 0 <= g0 < groups@.len() implies {
                    &&& tokens_distinct(views_of((#[trigger] groups@[g0]).0@))
                    &&& token_set(views_of(groups@[g0].0@)) == dk2[g0]
                    &&& groups@[g0].1@ == indices_where(keys.take(m + 1), dk2[g0])
                } by {
                    if g0 < groups@.len() - 1 {
                        assert(groups@[g0] == before[g0]);
                        assert(dk2[g0] == pre[g0]);
                        assert(pre[g0] != keys[m as int]);
                        assert(indices_where(keys.take(m + 1), pre[g0]) == indices_where(
                            keys.take(m as int),
                            pre[g0],
                        ));
                    } else {
                        assert(dk2[g0] == keys[m as int]);
                        assert(indices_where(keys.take(m as int), keys[m as int])
                            =~= Seq::<usize>::empty()) by {
                            lemma_indices_where(keys.take(m as int), keys[m as int]);
                            if indices_where(keys.take(m as int), keys[m as int]).len() > 0 {
                                let p = indices_where(keys.take(m as int), keys[m as int])[0];
                                assert(keys.take(m as int)[p as int] == keys[m as int]);
                                lemma_key_in_dedup(keys.take(m as int), p as int);
                                assert(false);
                            }
                        }
                        assert(indices_where(keys.take(m + 1), keys[m as int]) == indices_where(
                            keys.take(m as int),
                            keys[m as int],
                        ).push(m));
                        assert(groups@[g0].1@ =~= indices_where(keys.take(m + 1), dk2[g0]));
                    }
                }
            }
        }
        m = m + 1;
    }
    proof {
        assert(keys.take(messages@.len() as int) =~= keys);
    }
    groups
}

/// A list holding one message index.
fn make_singleton(m: usize) -> (r: Vec<usize>)
    ensures
        r@ == seq![m],
{
    let mut r: Vec<usize> = Vec::new();
    r.push(m);
    proof {
        assert(r@ =~= seq![m]);
    }
    r
}

} // verus!
