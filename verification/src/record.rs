//! The token co-occurrence record: for each retained token text, in how many
//! messages it appears; for each unordered pair of distinct retained texts, in
//! how many messages both appear. Counts are per message, not per occurrence:
//! texts are deduplicated within a message before counting.

use vstd::prelude::*;
use crate::chars::{seq_lt, str_eq, str_lt, lemma_seq_lt_total, lemma_seq_lt_asymmetric};
use crate::token_filter::{StaticFilter, passes};
use crate::tokenizer::{Tokenizer, tokenize_spec};

verus! {

/// The configuration a record is built under: the tokenizer's and the
/// filter's parameters.
pub struct RecordCfg {
    pub whites: Seq<Seq<char>>,
    pub blacks: Seq<Seq<char>>,
    pub symbols: Seq<char>,
    pub alphabetic: bool,
    pub numeric: bool,
    pub impure: bool,
}

pub open spec fn record_cfg(tokenizer: &Tokenizer, tf: &StaticFilter) -> RecordCfg {
    RecordCfg {
        whites: tokenizer.whites_view(),
        blacks: tokenizer.blacks_view(),
        symbols: tokenizer.symbols_view(),
        alphabetic: tf.alphabetic_flag(),
        numeric: tf.numeric_flag(),
        impure: tf.impure_flag(),
    }
}

/// The set of distinct token texts of one message that the filter retains.
pub open spec fn retained_of(cfg: RecordCfg, msg: Seq<char>) -> Set<Seq<char>> {
    Set::new(
        |t: Seq<char>|
            {
                let toks = tokenize_spec(msg, cfg.whites, cfg.blacks, cfg.symbols);
                exists|k: int|
                    0 <= k < toks.len() && passes(
                        cfg.alphabetic,
                        cfg.numeric,
                        cfg.impure,
                        #[trigger] toks[k].kind,
                    ) && toks[k].text == t
            },
    )
}

/// In how many of the messages the text `t` is retained.
pub open spec fn single_count(cfg: RecordCfg, msgs: Seq<Seq<char>>, t: Seq<char>) -> int
    decreases msgs.len(),
{
    if msgs.len() == 0 {
        0
    } else {
        single_count(cfg, msgs.drop_last(), t) + if retained_of(cfg, msgs.last()).contains(t) {
            1int
        } else {
            0int
        }
    }
}

/// In how many of the messages both texts are retained.
pub open spec fn pair_count(cfg: RecordCfg, msgs: Seq<Seq<char>>, a: Seq<char>, b: Seq<char>) -> int
    decreases msgs.len(),
{
    if msgs.len() == 0 {
        0
    } else {
        pair_count(cfg, msgs.drop_last(), a, b) + if retained_of(cfg, msgs.last()).contains(a)
            && retained_of(cfg, msgs.last()).contains(b) {
            1int
        } else {
            0int
        }
    }
}

pub proof fn lemma_single_count_bound(cfg: RecordCfg, msgs: Seq<Seq<char>>, t: Seq<char>)
    ensures
        0 <= single_count(cfg, msgs, t) <= msgs.len(),
    decreases msgs.len(),
{
    if msgs.len() > 0 {
        lemma_single_count_bound(cfg, msgs.drop_last(), t);
    }
}

pub proof fn lemma_pair_count_bound(cfg: RecordCfg, msgs: Seq<Seq<char>>, a: Seq<char>, b: Seq<char>)
    ensures
        0 <= pair_count(cfg, msgs, a, b) <= msgs.len(),
    decreases msgs.len(),
{
    if msgs.len() > 0 {
        lemma_pair_count_bound(cfg, msgs.drop_last(), a, b);
    }
}

/// A pair is counted in no more messages than either of its members.
pub proof fn lemma_pair_le_single(cfg: RecordCfg, msgs: Seq<Seq<char>>, a: Seq<char>, b: Seq<char>)
    ensures
        pair_count(cfg, msgs, a, b) <= single_count(cfg, msgs, a),
        pair_count(cfg, msgs, a, b) <= single_count(cfg, msgs, b),
    decreases msgs.len(),
{
    if msgs.len() > 0 {
        lemma_pair_le_single(cfg, msgs.drop_last(), a, b);
    }
}

pub proof fn lemma_pair_count_sym(cfg: RecordCfg, msgs: Seq<Seq<char>>, a: Seq<char>, b: Seq<char>)
    ensures
        pair_count(cfg, msgs, a, b) == pair_count(cfg, msgs, b, a),
    decreases msgs.len(),
{
    if msgs.len() > 0 {
        lemma_pair_count_sym(cfg, msgs.drop_last(), a, b);
    }
}

/// The canonical form of an unordered pair of texts: the lexicographically
/// larger text first.
pub open spec fn pair_key(a: Seq<char>, b: Seq<char>) -> (Seq<char>, Seq<char>) {
    if seq_lt(a, b) {
        (b, a)
    } else {
        (a, b)
    }
}

pub proof fn lemma_pair_key_sym(a: Seq<char>, b: Seq<char>)
    requires
        a != b,
    ensures
        pair_key(a, b) == pair_key(b, a),
{
    lemma_seq_lt_total(a, b);
    lemma_seq_lt_asymmetric(a, b);
}

pub proof fn lemma_pair_key_canonical(a: Seq<char>, b: Seq<char>)
    requires
        a != b,
    ensures
        !seq_lt(pair_key(a, b).0, pair_key(a, b).1),
        pair_key(a, b).0 != pair_key(a, b).1,
        pair_key(a, b) == (a, b) || pair_key(a, b) == (b, a),
{
    lemma_seq_lt_total(a, b);
    lemma_seq_lt_asymmetric(a, b);
}

/// The value stored for a text in the singles table, scanning front to back.
pub open spec fn single_lookup(entries: Seq<(String, u64)>, t: Seq<char>) -> Option<u64>
    decreases entries.len(),
{
    if entries.len() == 0 {
        None
    } else if entries[0].0@ == t {
        Some(entries[0].1)
    } else {
        single_lookup(entries.drop_first(), t)
    }
}

/// The value stored for a canonical pair in the pairs table.
pub open spec fn pair_lookup(
    entries: Seq<(String, String, u64)>,
    a: Seq<char>,
    b: Seq<char>,
) -> Option<u64>
    decreases entries.len(),
{
    if entries.len() == 0 {
        None
    } else if entries[0].0@ == a && entries[0].1@ == b {
        Some(entries[0].2)
    } else {
        pair_lookup(entries.drop_first(), a, b)
    }
}

pub open spec fn singles_distinct(entries: Seq<(String, u64)>) -> bool {
    forall|i: int, j: int|
        0 <= i < j < entries.len() ==> (#[trigger] entries[i]).0@ != (#[trigger] entries[j]).0@
}

pub open spec fn pairs_distinct(entries: Seq<(String, String, u64)>) -> bool {
    forall|i: int, j: int|
        0 <= i < j < entries.len() ==> ((#[trigger] entries[i]).0@, entries[i].1@) != ((
            #[trigger] entries[j]).0@,
        entries[j].1@,
        )
}

pub proof fn lemma_single_lookup_exists(entries: Seq<(String, u64)>, t: Seq<char>)
    ensures
        single_lookup(entries, t) is Some ==> exists|i: int|
            0 <= i < entries.len() && (#[trigger] entries[i]).0@ == t && entries[i].1
                == single_lookup(entries, t)->0,
        single_lookup(entries, t) is None ==> forall|i: int|
            0 <= i < entries.len() ==> (#[trigger] entries[i]).0@ != t,
    decreases entries.len(),
{
    if entries.len() > 0 && entries[0].0@ != t {
        lemma_single_lookup_exists(entries.drop_first(), t);
        if single_lookup(entries, t) is Some {
            let i = choose|i: int|
                0 <= i < entries.drop_first().len() && (#[trigger] entries.drop_first()[i]).0@ == t
                    && entries.drop_first()[i].1 == single_lookup(entries.drop_first(), t)->0;
            assert(entries[i + 1] == entries.drop_first()[i]);
        } else {
            assert forall|i: int| 0 <= i < entries.len() implies (#[trigger] entries[i]).0@
                != t by {
                if i > 0 {
                    assert(entries[i] == entries.drop_first()[i - 1]);
                }
            }
        }
    }
}

pub proof fn lemma_single_lookup_at(entries: Seq<(String, u64)>, t: Seq<char>, i: int)
    requires
        singles_distinct(entries),
        0 <= i < entries.len(),
        entries[i].0@ == t,
    ensures
        single_lookup(entries, t) == Some(entries[i].1),
    decreases entries.len(),
{
    if i > 0 {
        assert(entries[0].0@ != t);
        assert(entries.drop_first()[i - 1] == entries[i]);
        assert forall|p: int, q: int|
            0 <= p < q < entries.drop_first().len() implies (#[trigger] entries.drop_first()[p]).0@
            != (#[trigger] entries.drop_first()[q]).0@ by {
            assert(entries.drop_first()[p] == entries[p + 1]);
            assert(entries.drop_first()[q] == entries[q + 1]);
        }
        lemma_single_lookup_at(entries.drop_first(), t, i - 1);
    }
}

pub proof fn lemma_pair_lookup_exists(entries: Seq<(String, String, u64)>, a: Seq<char>, b: Seq<char>)
    ensures
        pair_lookup(entries, a, b) is Some ==> exists|i: int|
            0 <= i < entries.len() && (#[trigger] entries[i]).0@ == a && entries[i].1@ == b
                && entries[i].2 == pair_lookup(entries, a, b)->0,
        pair_lookup(entries, a, b) is None ==> forall|i: int|
            0 <= i < entries.len() ==> ((#[trigger] entries[i]).0@, entries[i].1@) != (a, b),
    decreases entries.len(),
{
    if entries.len() > 0 && !(entries[0].0@ == a && entries[0].1@ == b) {
        lemma_pair_lookup_exists(entries.drop_first(), a, b);
        if pair_lookup(entries, a, b) is Some {
            let i = choose|i: int|
                0 <= i < entries.drop_first().len() && (#[trigger] entries.drop_first()[i]).0@ == a
                    && entries.drop_first()[i].1@ == b && entries.drop_first()[i].2 == pair_lookup(
                    entries.drop_first(),
                    a,
                    b,
                )->0;
            assert(entries[i + 1] == entries.drop_first()[i]);
        } else {
            assert forall|i: int| 0 <= i < entries.len() implies ((#[trigger] entries[i]).0@,
            entries[i].1@) != (a, b) by {
                if i > 0 {
                    assert(entries[i] == entries.drop_first()[i - 1]);
                }
            }
        }
    }
}

pub proof fn lemma_pair_lookup_at(
    entries: Seq<(String, String, u64)>,
    a: Seq<char>,
    b: Seq<char>,
    i: int,
)
    requires
        pairs_distinct(entries),
        0 <= i < entries.len(),
        entries[i].0@ == a,
        entries[i].1@ == b,
    ensures
        pair_lookup(entries, a, b) == Some(entries[i].2),
    decreases entries.len(),
{
    if i > 0 {
        assert((entries[0].0@, entries[0].1@) != (a, b));
        assert(!(entries[0].0@ == a && entries[0].1@ == b));
        assert(entries.drop_first()[i - 1] == entries[i]);
        assert forall|p: int, q: int|
            0 <= p < q < entries.drop_first().len() implies ((#[trigger] entries.drop_first()[p]).0@,
        entries.drop_first()[p].1@) != ((#[trigger] entries.drop_first()[q]).0@,
        entries.drop_first()[q].1@) by {
            assert(entries.drop_first()[p] == entries[p + 1]);
            assert(entries.drop_first()[q] == entries[q + 1]);
        }
        lemma_pair_lookup_at(entries.drop_first(), a, b, i - 1);
    }
}

/// The count an association table reports for a count value `n`: present
/// exactly when positive.
pub open spec fn opt_of(n: int) -> Option<u64> {
    if n > 0 {
        Some(n as u64)
    } else {
        None
    }
}

/// Whether some string of the list holds the text `t`.
pub open spec fn has_text(ls: Seq<String>, t: Seq<char>) -> bool {
    exists|i: int| 0 <= i < ls.len() && (#[trigger] ls[i])@ == t
}

pub open spec fn texts_distinct(ls: Seq<String>) -> bool {
    forall|i: int, j: int| 0 <= i < j < ls.len() ==> (#[trigger] ls[i])@ != (#[trigger] ls[j])@
}

pub(crate) fn has_text_x(ls: &Vec<String>, t: &str) -> (r: bool)
    ensures
        r == has_text(ls@, t@),
{
    let mut i: usize = 0;
    while i < ls.len()
        invariant
            0 <= i <= ls@.len(),
            forall|k: int| 0 <= k < i ==> (#[trigger] ls@[k])@ != t@,
        decreases ls@.len() - i,
    {
        if str_eq(ls[i].as_str(), t) {
            return true;
        }
        i = i + 1;
    }
    false
}

/// Adds one to the count stored for `key`, or stores one.
fn bump_single(singles: &mut Vec<(String, u64)>, key: &str)
    requires
        singles_distinct(old(singles)@),
        single_lookup(old(singles)@, key@) is Some ==> single_lookup(old(singles)@, key@)->0
            < u64::MAX,
    ensures
        singles_distinct(final(singles)@),
        forall|t: Seq<char>|
            t != key@ ==> #[trigger] single_lookup(final(singles)@, t) == single_lookup(
                old(singles)@,
                t,
            ),
        single_lookup(final(singles)@, key@) == (match single_lookup(old(singles)@, key@) {
            Some(c) => Some((c + 1) as u64),
            None => Some(1u64),
        }),
{
    let ghost olds = singles@;
    let mut i: usize = 0;
    proof {
        assert(olds.skip(0) =~= olds);
    }
    while i < singles.len()
        invariant
            olds == old(singles)@,
            singles@ == olds,
            singles_distinct(olds),
            single_lookup(olds, key@) is Some ==> single_lookup(olds, key@)->0 < u64::MAX,
            0 <= i <= olds.len(),
            single_lookup(olds, key@) == single_lookup(olds.skip(i as int), key@),
            forall|k: int| 0 <= k < i ==> (#[trigger] olds[k]).0@ != key@,
        decreases olds.len() - i,
    {
        proof {
            assert(olds.skip(i as int)[0] == olds[i as int]);
            assert(olds.skip(i as int).drop_first() =~= olds.skip(i + 1));
        }
        if str_eq(singles[i].0.as_str(), key) {
            let c = singles[i].1;
            proof {
                assert(single_lookup(olds, key@) == Some(c));
            }
            let k2 = singles[i].0.clone();
            singles[i] = (k2, c + 1);
            proof {
                let news = singles@;
                assert(news == olds.update(i as int, (k2, (c + 1) as u64)));
                assert(news[i as int].0@ == key@);
                assert forall|p: int, q: int| 0 <= p < q < news.len() implies (
                #[trigger] news[p]).0@ != (#[trigger] news[q]).0@ by {
                    assert(news[p].0@ == olds[p].0@);
                    assert(news[q].0@ == olds[q].0@);
                }
                lemma_single_lookup_at(news, key@, i as int);
                assert forall|t: Seq<char>| t != key@ implies #[trigger] single_lookup(news, t)
                    == single_lookup(olds, t) by {
                    lemma_single_lookup_exists(olds, t);
                    lemma_single_lookup_exists(news, t);
                    if single_lookup(olds, t) is Some {
                        let j = choose|j: int|
                            0 <= j < olds.len() && (#[trigger] olds[j]).0@ == t && olds[j].1
                                == single_lookup(olds, t)->0;
                        assert(j != i);
                        assert(news[j] == olds[j]);
                        lemma_single_lookup_at(news, t, j);
                    } else {
                        if single_lookup(news, t) is Some {
                            let j = choose|j: int|
                                0 <= j < news.len() && (#[trigger] news[j]).0@ == t && news[j].1
                                    == single_lookup(news, t)->0;
                            assert(j != i);
                            assert(olds[j] == news[j]);
                            assert(false);
                        }
                    }
                }
            }
            return ;
        }
        i = i + 1;
    }
    proof {
        assert(olds.skip(olds.len() as int).len() == 0);
        assert(single_lookup(olds, key@) is None);
    }
    singles.push((key.to_owned(), 1));
    proof {
        let news = singles@;
        let n = olds.len() as int;
        assert(news[n].0@ == key@);
        assert forall|p: int, q: int| 0 <= p < q < news.len() implies (#[trigger] news[p]).0@ != (
        #[trigger] news[q]).0@ by {
            if q < n {
                assert(news[p] == olds[p]);
                assert(news[q] == olds[q]);
            } else {
                assert(news[p] == olds[p]);
                assert(news[q].0@ == key@);
            }
        }
        lemma_single_lookup_at(news, key@, n);
        assert forall|t: Seq<char>| t != key@ implies #[trigger] single_lookup(news, t)
            == single_lookup(olds, t) by {
            lemma_single_lookup_exists(olds, t);
            lemma_single_lookup_exists(news, t);
            if single_lookup(olds, t) is Some {
                let j = choose|j: int|
                    0 <= j < olds.len() && (#[trigger] olds[j]).0@ == t && olds[j].1
                        == single_lookup(olds, t)->0;
                assert(news[j] == olds[j]);
                lemma_single_lookup_at(news, t, j);
            } else {
                if single_lookup(news, t) is Some {
                    let j = choose|j: int|
                        0 <= j < news.len() && (#[trigger] news[j]).0@ == t && news[j].1
                            == single_lookup(news, t)->0;
                    if j < n {
                        assert(olds[j] == news[j]);
                    }
                    assert(false);
                }
            }
        }
    }
}

pub open spec fn pairs_canonical(entries: Seq<(String, String, u64)>) -> bool {
    forall|i: int|
        0 <= i < entries.len() ==> (#[trigger] entries[i]).0@ != entries[i].1@ && !seq_lt(
            entries[i].0@,
            entries[i].1@,
        )
}

/// Adds one to the count stored for the canonical pair `(hi, lo)`, or stores
/// one.
fn bump_pair(pairs: &mut Vec<(String, String, u64)>, hi: &str, lo: &str)
    requires
        pairs_distinct(old(pairs)@),
        pairs_canonical(old(pairs)@),
        hi@ != lo@,
        !seq_lt(hi@, lo@),
        pair_lookup(old(pairs)@, hi@, lo@) is Some ==> pair_lookup(old(pairs)@, hi@, lo@)->0
            < u64::MAX,
    ensures
        pairs_distinct(final(pairs)@),
        pairs_canonical(final(pairs)@),
        forall|x: Seq<char>, y: Seq<char>|
            (x, y) != (hi@, lo@) ==> #[trigger] pair_lookup(final(pairs)@, x, y) == pair_lookup(
                old(pairs)@,
                x,
                y,
            ),
        pair_lookup(final(pairs)@, hi@, lo@) == (match pair_lookup(old(pairs)@, hi@, lo@) {
            Some(c) => Some((c + 1) as u64),
            None => Some(1u64),
        }),
{
    let ghost olds = pairs@;
    let mut i: usize = 0;
    proof {
        assert(olds.skip(0) =~= olds);
    }
    while i < pairs.len()
        invariant
            olds == old(pairs)@,
            pairs@ == olds,
            pairs_distinct(olds),
            pairs_canonical(olds),
            0 <= i <= olds.len(),
            pair_lookup(olds, hi@, lo@) == pair_lookup(olds.skip(i as int), hi@, lo@),
            forall|k: int| 0 <= k < i ==> ((#[trigger] olds[k]).0@, olds[k].1@) != (hi@, lo@),
            pair_lookup(olds, hi@, lo@) is Some ==> pair_lookup(olds, hi@, lo@)->0 < u64::MAX,
        decreases olds.len() - i,
    {
        proof {
            assert(olds.skip(i as int)[0] == olds[i as int]);
            assert(olds.skip(i as int).drop_first() =~= olds.skip(i + 1));
        }
        if str_eq(pairs[i].0.as_str(), hi) && str_eq(pairs[i].1.as_str(), lo) {
            let c = pairs[i].2;
            proof {
                assert(pair_lookup(olds, hi@, lo@) == Some(c));
            }
            let k0 = pairs[i].0.clone();
            let k1 = pairs[i].1.clone();
            pairs[i] = (k0, k1, c + 1);
            proof {
                let news = pairs@;
                assert(news[i as int].0@ == hi@ && news[i as int].1@ == lo@);
                assert forall|p: int, q: int| 0 <= p < q < news.len() implies ((
                #[trigger] news[p]).0@, news[p].1@) != ((#[trigger] news[q]).0@, news[q].1@) by {
                    assert(news[p].0@ == olds[p].0@ && news[p].1@ == olds[p].1@);
                    assert(news[q].0@ == olds[q].0@ && news[q].1@ == olds[q].1@);
                }
                assert forall|k: int| 0 <= k < news.len() implies (#[trigger] news[k]).0@
                    != news[k].1@ && !seq_lt(news[k].0@, news[k].1@) by {
                    assert(news[k].0@ == olds[k].0@ && news[k].1@ == olds[k].1@);
                }
                lemma_pair_lookup_at(news, hi@, lo@, i as int);
                assert forall|x: Seq<char>, y: Seq<char>| (x, y) != (hi@, lo@) implies
                #[trigger] pair_lookup(news, x, y) == pair_lookup(olds, x, y) by {
                    lemma_pair_lookup_exists(olds, x, y);
                    lemma_pair_lookup_exists(news, x, y);
                    if pair_lookup(olds, x, y) is Some {
                        let j = choose|j: int|
                            0 <= j < olds.len() && (#[trigger] olds[j]).0@ == x && olds[j].1@ == y
                                && olds[j].2 == pair_lookup(olds, x, y)->0;
                        assert(j != i);
                        assert(news[j] == olds[j]);
                        lemma_pair_lookup_at(news, x, y, j);
                    } else {
                        if pair_lookup(news, x, y) is Some {
                            let j = choose|j: int|
                                0 <= j < news.len() && (#[trigger] news[j]).0@ == x && news[j].1@
                                    == y && news[j].2 == pair_lookup(news, x, y)->0;
                            assert(j != i);
                            assert(olds[j] == news[j]);
                            assert(false);
                        }
                    }
                }
            }
            return ;
        }
        i = i + 1;
    }
    proof {
        assert(olds.skip(olds.len() as int).len() == 0);
        assert(pair_lookup(olds, hi@, lo@) is None);
    }
    pairs.push((hi.to_owned(), lo.to_owned(), 1));
    proof {
        let news = pairs@;
        let n = olds.len() as int;
        assert(news[n].0@ == hi@ && news[n].1@ == lo@);
        assert forall|p: int, q: int| 0 <= p < q < news.len() implies ((#[trigger] news[p]).0@,
        news[p].1@) != ((#[trigger] news[q]).0@, news[q].1@) by {
            if q < n {
                assert(news[p] == olds[p]);
                assert(news[q] == olds[q]);
            } else {
                assert(news[p] == olds[p]);
            }
        }
        assert forall|k: int| 0 <= k < news.len() implies (#[trigger] news[k]).0@ != news[k].1@
            && !seq_lt(news[k].0@, news[k].1@) by {
            if k < n {
                assert(news[k] == olds[k]);
            }
        }
        lemma_pair_lookup_at(news, hi@, lo@, n);
        assert forall|x: Seq<char>, y: Seq<char>| (x, y) != (hi@, lo@) implies #[trigger] pair_lookup(
            news,
            x,
            y,
        ) == pair_lookup(olds, x, y) by {
            lemma_pair_lookup_exists(olds, x, y);
            lemma_pair_lookup_exists(news, x, y);
            if pair_lookup(olds, x, y) is Some {
                let j = choose|j: int|
                    0 <= j < olds.len() && (#[trigger] olds[j]).0@ == x && olds[j].1@ == y
                        && olds[j].2 == pair_lookup(olds, x, y)->0;
                assert(news[j] == olds[j]);
                lemma_pair_lookup_at(news, x, y, j);
            } else {
                if pair_lookup(news, x, y) is Some {
                    let j = choose|j: int|
                        0 <= j < news.len() && (#[trigger] news[j]).0@ == x && news[j].1@ == y
                            && news[j].2 == pair_lookup(news, x, y)->0;
                    if j < n {
                        assert(olds[j] == news[j]);
                    }
                    assert(false);
                }
            }
        }
    }
}

pub open spec fn all_distinct(lv: Seq<Seq<char>>) -> bool {
    forall|i: int, j: int| 0 <= i < j < lv.len() ==> #[trigger] lv[i] != #[trigger] lv[j]
}

/// Whether the unordered pair `(x, y)` has already been emitted by the
/// pairwise walk of `lv`, which visits positions `(p, q)` with `p < q` in
/// lexicographic order and stands at `(i, j)`.
pub open spec fn processed(lv: Seq<Seq<char>>, i: int, j: int, x: Seq<char>, y: Seq<char>) -> bool {
    exists|p: int, q: int|
        0 <= p < q < lv.len() && (p < i || (p == i && q < j)) && #[trigger] pair_key(lv[p], lv[q])
            == (x, y)
}

/// In a list of distinct texts, an unordered pair comes from only one pair of
/// positions.
pub proof fn lemma_pair_positions_unique(lv: Seq<Seq<char>>, p: int, q: int, i: int, j: int)
    requires
        all_distinct(lv),
        0 <= p < q < lv.len(),
        0 <= i < j < lv.len(),
        pair_key(lv[p], lv[q]) == pair_key(lv[i], lv[j]),
    ensures
        p == i && q == j,
{
    lemma_pair_key_canonical(lv[p], lv[q]);
    lemma_pair_key_canonical(lv[i], lv[j]);
    if lv[p] == lv[i] && lv[q] == lv[j] {
        assert(p == i && q == j);
    } else {
        assert(lv[p] == lv[j] && lv[q] == lv[i]);
        assert(p == j && q == i);
        assert(false);
    }
}

/// An exact fraction: a pair count over a single count.
#[derive(Debug, Clone, Copy, PartialEq, Eq, Structural)]
pub struct Ratio {
    pub num: u64,
    pub den: u64,
}

/// The record itself: an association table per mapping. Keys are distinct;
/// pair keys are canonical; every stored pair count is bounded by the single
/// counts of both its texts.
pub struct TokenRecord {
    singles: Vec<(String, u64)>,
    pairs: Vec<(String, String, u64)>,
}

impl TokenRecord {
    /// The stored count of messages containing `t`.
    pub closed spec fn occ_spec(self, t: Seq<char>) -> Option<u64> {
        single_lookup(self.singles@, t)
    }

    /// The stored count of messages containing both `a` and `b`.
    pub closed spec fn co_spec(self, a: Seq<char>, b: Seq<char>) -> Option<u64> {
        pair_lookup(self.pairs@, pair_key(a, b).0, pair_key(a, b).1)
    }

    /// The interdependency of `a` on `b`: the fraction of messages containing
    /// `a` that also contain `b`. Of a text on itself it is one.
    pub open spec fn dep_spec(self, a: Seq<char>, b: Seq<char>) -> Option<Ratio> {
        if a == b {
            match self.occ_spec(a) {
                Some(c) => Some(Ratio { num: c, den: c }),
                None => None,
            }
        } else {
            match (self.co_spec(a, b), self.occ_spec(a)) {
                (Some(p), Some(s)) => Some(Ratio { num: p, den: s }),
                _ => None,
            }
        }
    }

    #[verifier::type_invariant]
    pub closed spec fn wf(self) -> bool {
        &&& singles_distinct(self.singles@)
        &&& pairs_distinct(self.pairs@)
        &&& forall|i: int| 0 <= i < self.singles@.len() ==> (#[trigger] self.singles@[i]).1 >= 1
        &&& forall|i: int|
            0 <= i < self.pairs@.len() ==> {
                let e = #[trigger] self.pairs@[i];
                &&& e.2 >= 1
                &&& e.0@ != e.1@
                &&& !seq_lt(e.0@, e.1@)
                &&& single_lookup(self.singles@, e.0@) is Some
                &&& e.2 <= single_lookup(self.singles@, e.0@)->0
                &&& single_lookup(self.singles@, e.1@) is Some
                &&& e.2 <= single_lookup(self.singles@, e.1@)->0
            }
    }

    /// In how many messages the text occurs (after filtering and
    /// per-message deduplication), or none if it was never retained.
    pub fn occurence(&self, tok: &str) -> (r: Option<u64>)
        ensures
            r == self.occ_spec(tok@),
    {
        let mut i: usize = 0;
        proof {
            assert(self.singles@.skip(0) =~= self.singles@);
        }
        while i < self.singles.len()
            invariant
                0 <= i <= self.singles@.len(),
                single_lookup(self.singles@, tok@) == single_lookup(
                    self.singles@.skip(i as int),
                    tok@,
                ),
            decreases self.singles@.len() - i,
        {
            proof {
                assert(self.singles@.skip(i as int)[0] == self.singles@[i as int]);
                assert(self.singles@.skip(i as int).drop_first() =~= self.singles@.skip(i + 1));
            }
            if str_eq(self.singles[i].0.as_str(), tok) {
                return Some(self.singles[i].1);
            }
            i = i + 1;
        }
        proof {
            assert(self.singles@.skip(self.singles@.len() as int).len() == 0);
        }
        None
    }

    /// In how many messages both texts occur, or none if never together.
    pub fn coocurence(&self, tok1: &str, tok2: &str) -> (r: Option<u64>)
        ensures
            r == self.co_spec(tok1@, tok2@),
    {
        let (hi, lo) = if str_lt(tok1, tok2) {
            (tok2, tok1)
        } else {
            (tok1, tok2)
        };
        let ghost a = pair_key(tok1@, tok2@).0;
        let ghost b = pair_key(tok1@, tok2@).1;
        let mut i: usize = 0;
        proof {
            assert(self.pairs@.skip(0) =~= self.pairs@);
        }
        while i < self.pairs.len()
            invariant
                a == pair_key(tok1@, tok2@).0,
                b == pair_key(tok1@, tok2@).1,
                hi@ == a,
                lo@ == b,
                0 <= i <= self.pairs@.len(),
                pair_lookup(self.pairs@, a, b) == pair_lookup(self.pairs@.skip(i as int), a, b),
            decreases self.pairs@.len() - i,
        {
            proof {
                assert(self.pairs@.skip(i as int)[0] == self.pairs@[i as int]);
                assert(self.pairs@.skip(i as int).drop_first() =~= self.pairs@.skip(i + 1));
            }
            if str_eq(self.pairs[i].0.as_str(), hi) && str_eq(self.pairs[i].1.as_str(), lo) {
                proof {
                    assert(self.pairs@[i as int].0@ == a);
                    assert(self.pairs@[i as int].1@ == b);
                    assert(pair_lookup(self.pairs@.skip(i as int), a, b) == Some(
                        self.pairs@[i as int].2,
                    ));
                    assert(a == pair_key(tok1@, tok2@).0);
                    assert(b == pair_key(tok1@, tok2@).1);
                    assert(self.co_spec(tok1@, tok2@) == pair_lookup(
                        self.pairs@,
                        pair_key(tok1@, tok2@).0,
                        pair_key(tok1@, tok2@).1,
                    ));
                }
                return Some(self.pairs[i].2);
            }
            i = i + 1;
        }
        proof {
            assert(self.pairs@.skip(self.pairs@.len() as int).len() == 0);
        }
        None
    }

    /// The interdependency of `eve` on `con`: the exact fraction of messages
    /// containing `eve` that also contain `con`. Defined when `eve` occurs and
    /// (for distinct texts) the two co-occur; whenever defined it lies in
    /// [0, 1], and of a text on itself it is one.
    pub fn dependency(&self, eve: &str, con: &str) -> (r: Option<Ratio>)
        ensures
            r == self.dep_spec(eve@, con@),
            r is Some ==> 0 < r->0.den && r->0.num <= r->0.den,
            eve@ == con@ && self.occ_spec(eve@) is Some ==> r is Some && r->0.num == r->0.den,
    {
        proof {
            use_type_invariant(self);
        }
        if str_eq(eve, con) {
            match self.occurence(eve) {
                Some(c) => {
                    proof {
                        lemma_single_lookup_exists(self.singles@, eve@);
                    }
                    Some(Ratio { num: c, den: c })
                },
                None => None,
            }
        } else {
            let co = self.coocurence(eve, con);
            let s = self.occurence(eve);
            match (co, s) {
                (Some(p), Some(c)) => {
                    proof {
                        let a = pair_key(eve@, con@).0;
                        let b = pair_key(eve@, con@).1;
                        lemma_pair_lookup_exists(self.pairs@, a, b);
                        lemma_pair_key_canonical(eve@, con@);
                        lemma_single_lookup_exists(self.singles@, eve@);
                        let i = choose|i: int|
                            0 <= i < self.pairs@.len() && (#[trigger] self.pairs@[i]).0@ == a
                                && self.pairs@[i].1@ == b && self.pairs@[i].2 == pair_lookup(
                                self.pairs@,
                                a,
                                b,
                            )->0;
                        assert(eve@ == a || eve@ == b);
                    }
                    Some(Ratio { num: p, den: c })
                },
                _ => None,
            }
        }
    }
}

impl TokenRecord {
    /// Whether the record holds exactly the counts of the corpus: each text's
    /// entry is the number of messages retaining it, each pair's entry the
    /// number of messages retaining both, present exactly when positive.
    pub open spec fn matches_counts(self, cfg: RecordCfg, msgs: Seq<Seq<char>>) -> bool {
        &&& forall|t: Seq<char>| #[trigger] self.occ_spec(t) == opt_of(single_count(cfg, msgs, t))
        &&& forall|a: Seq<char>, b: Seq<char>|
            a != b ==> #[trigger] self.co_spec(a, b) == opt_of(pair_count(cfg, msgs, a, b))
    }

    /// Builds the record over the corpus: tokenize each message, keep the
    /// texts the filter retains, deduplicate them within the message, then
    /// count each text once and each unordered pair of distinct texts once.
    pub fn new(msgs: &Vec<String>, tokenizer: &Tokenizer, tf: &StaticFilter) -> (r: TokenRecord)
        ensures
            r.matches_counts(record_cfg(tokenizer, tf), msgs@.map_values(|m: String| m@)),
    {
        let ghost cfg = record_cfg(tokenizer, tf);
        let ghost views = msgs@.map_values(|m: String| m@);
        let mut singles: Vec<(String, u64)> = Vec::new();
        let mut pairs: Vec<(String, String, u64)> = Vec::new();
        let n_total = msgs.len();
        let mut m: usize = 0;
        proof {
            assert(views.take(0) =~= Seq::<Seq<char>>::empty());
            assert(msgs@.len() <= usize::MAX as int);
        }
        while m < msgs.len()
            invariant
                cfg == record_cfg(tokenizer, tf),
                views == msgs@.map_values(|m: String| m@),
                0 <= m <= msgs@.len(),
                singles_distinct(singles@),
                pairs_distinct(pairs@),
                pairs_canonical(pairs@),
                forall|t: Seq<char>| #[trigger] single_lookup(singles@, t) == opt_of(
                    single_count(cfg, views.take(m as int), t),
                ),
                forall|x: Seq<char>, y: Seq<char>|
                    x != y && !seq_lt(x, y) ==> #[trigger] pair_lookup(pairs@, x, y) == opt_of(
                        pair_count(cfg, views.take(m as int), x, y),
                    ),
            decreases msgs@.len() - m,
        {
            let ghost base = views.take(m as int);
            let toks = tokenizer.tokenize(msgs[m].as_str());
            let ghost msgv = views[m as int];
            let ghost tv = crate::token::views_of(toks@);
            proof {
                assert(msgs@[m as int]@ == views[m as int]);
            }
            let mut locals: Vec<String> = Vec::new();
            let mut k: usize = 0;
            while k < toks.len()
                invariant
                    cfg == record_cfg(tokenizer, tf),
                    tv == crate::token::views_of(toks@),
                    tv == tokenize_spec(msgv, cfg.whites, cfg.blacks, cfg.symbols),
                    0 <= k <= toks@.len(),
                    tv.len() == toks@.len(),
                    texts_distinct(locals@),
                    forall|t: Seq<char>|
                        #[trigger] has_text(locals@, t) <==> exists|j: int|
                            0 <= j < k && passes(
                                cfg.alphabetic,
                                cfg.numeric,
                                cfg.impure,
                                (#[trigger] tv[j]).kind,
                            ) && tv[j].text == t,
                decreases toks@.len() - k,
            {
                let ghost before = locals@;
                if tf.retains(&toks[k]) {
                    if !has_text_x(&locals, toks[k].as_str()) {
                        locals.push(toks[k].text_string());
                        proof {
                            assert(locals@.drop_last() =~= before);
                            assert(locals@.last()@ == tv[k as int].text);
                            assert forall|p: int, q: int| 0 <= p < q < locals@.len() implies (
                            #[trigger] locals@[p])@ != (#[trigger] locals@[q])@ by {
                                if q < locals@.len() - 1 {
                                    assert(locals@[p] == before[p]);
                                    assert(locals@[q] == before[q]);
                                } else {
                                    assert(locals@[p] == before[p]);
                                    assert(has_text(before, before[p]@));
                                }
                            }
                        }
                    }
                }
                proof {
                    let now = locals@;
                    assert forall|t: Seq<char>| #[trigger] has_text(now, t) implies exists|j: int|
                        0 <= j < k + 1 && passes(
                            cfg.alphabetic,
                            cfg.numeric,
                            cfg.impure,
                            (#[trigger] tv[j]).kind,
                        ) && tv[j].text == t by {
                        let i0 = choose|i0: int| 0 <= i0 < now.len() && (#[trigger] now[i0])@ == t;
                        if i0 < before.len() {
                            assert(has_text(before, t)) by {
                                assert(before[i0]@ == t);
                            }
                            let j = choose|j: int|
                                0 <= j < k && passes(
                                    cfg.alphabetic,
                                    cfg.numeric,
                                    cfg.impure,
                                    (#[trigger] tv[j]).kind,
                                ) && tv[j].text == t;
                            assert(0 <= j < k + 1 && passes(
                                cfg.alphabetic,
                                cfg.numeric,
                                cfg.impure,
                                tv[j].kind,
                            ) && tv[j].text == t);
                        } else {
                            assert(now[i0]@ == tv[k as int].text);
                            assert(passes(cfg.alphabetic, cfg.numeric, cfg.impure, tv[k as int].kind));
                        }
                    }
                    assert forall|t: Seq<char>|
                        (exists|j: int|
                            0 <= j < k + 1 && passes(
                                cfg.alphabetic,
                                cfg.numeric,
                                cfg.impure,
                                (#[trigger] tv[j]).kind,
                            ) && tv[j].text == t) implies #[trigger] has_text(now, t) by {
                        let j = choose|j: int|
                            0 <= j < k + 1 && passes(
                                cfg.alphabetic,
                                cfg.numeric,
                                cfg.impure,
                                (#[trigger] tv[j]).kind,
                            ) && tv[j].text == t;
                        if j < k {
                            assert(has_text(before, t));
                            let i0 = choose|i0: int|
                                0 <= i0 < before.len() && (#[trigger] before[i0])@ == t;
                            assert(now[i0]@ == t);
                        } else {
                            assert(tv[k as int].text == t);
                            if has_text(before, t) {
                                let i0 = choose|i0: int|
                                    0 <= i0 < before.len() && (#[trigger] before[i0])@ == t;
                                assert(now[i0]@ == t);
                            } else {
                                assert(now.last()@ == t);
                            }
                        }
                    }
                }
                k = k + 1;
            }
            let ghost lv = locals@.map_values(|s: String| s@);
            proof {
                assert forall|t: Seq<char>| #[trigger] has_text(locals@, t) <==> retained_of(
                    cfg,
                    msgv,
                ).contains(t) by {
                    assert(retained_of(cfg, msgv).contains(t) == (exists|j: int|
                        0 <= j < tv.len() && passes(
                            cfg.alphabetic,
                            cfg.numeric,
                            cfg.impure,
                            (#[trigger] tv[j]).kind,
                        ) && tv[j].text == t));
                }
            }
            let mut k2: usize = 0;
            proof {
                assert(locals@.take(0) =~= Seq::<String>::empty());
            }
            while k2 < locals.len()
                invariant
                    cfg == record_cfg(tokenizer, tf),
                    views == msgs@.map_values(|m: String| m@),
                    0 <= m < msgs@.len(),
                    base == views.take(m as int),
                    msgs@.len() <= usize::MAX as int,
                    0 <= k2 <= locals@.len(),
                    texts_distinct(locals@),
                    forall|t: Seq<char>|
                        #[trigger] has_text(locals@, t) <==> retained_of(cfg, msgv).contains(t),
                    singles_distinct(singles@),
                    pairs_distinct(pairs@),
                    pairs_canonical(pairs@),
                    forall|t: Seq<char>| #[trigger] single_lookup(singles@, t) == opt_of(
                        single_count(cfg, base, t) + if has_text(locals@.take(k2 as int), t) {
                            1int
                        } else {
                            0int
                        },
                    ),
                    forall|x: Seq<char>, y: Seq<char>|
                        x != y && !seq_lt(x, y) ==> #[trigger] pair_lookup(pairs@, x, y) == opt_of(
                            pair_count(cfg, base, x, y),
                        ),
                decreases locals@.len() - k2,
            {
                let ghost t0 = locals@[k2 as int]@;
                proof {
                    assert(!has_text(locals@.take(k2 as int), t0)) by {
                        if has_text(locals@.take(k2 as int), t0) {
                            let i0 = choose|i0: int|
                                0 <= i0 < k2 && (#[trigger] locals@.take(k2 as int)[i0])@ == t0;
                            assert(locals@[i0]@ == t0);
                            assert(false);
                        }
                    }
                    lemma_single_count_bound(cfg, base, t0);
                    assert(base.len() == m as int);
                    assert((m as int) < msgs@.len());
                    assert(msgs@.len() <= usize::MAX as int);
                    assert(usize::MAX as int <= u64::MAX as int);
                    assert(single_count(cfg, base, t0) < u64::MAX as int);
                }
                bump_single(&mut singles, locals[k2].as_str());
                proof {
                    let ghost taken = locals@.take(k2 + 1);
                    assert forall|t: Seq<char>| #[trigger] single_lookup(singles@, t) == opt_of(
                        single_count(cfg, base, t) + if has_text(taken, t) {
                            1int
                        } else {
                            0int
                        },
                    ) by {
                        if t == t0 {
                            assert(has_text(taken, t)) by {
                                assert(taken[k2 as int]@ == t0);
                            }
                        } else {
                            assert(has_text(taken, t) == has_text(locals@.take(k2 as int), t)) by {
                                if has_text(taken, t) {
                                    let i0 = choose|i0: int|
                                        0 <= i0 < taken.len() && (#[trigger] taken[i0])@ == t;
                                    assert(i0 != k2);
                                    assert(locals@.take(k2 as int)[i0]@ == t);
                                }
                                if has_text(locals@.take(k2 as int), t) {
                                    let i0 = choose|i0: int|
                                        0 <= i0 < k2 && (#[trigger] locals@.take(k2 as int)[i0])@
                                            == t;
                                    assert(taken[i0]@ == t);
                                }
                            }
                        }
                    }
                }
                k2 = k2 + 1;
            }
            proof {
                assert(locals@.take(locals@.len() as int) =~= locals@);
            }
            let mut i2: usize = 0;
            proof {
                assert(all_distinct(lv)) by {
                    assert forall|p: int, q: int| 0 <= p < q < lv.len() implies #[trigger] lv[p]
                        != #[trigger] lv[q] by {
                        assert(lv[p] == locals@[p]@);
                        assert(lv[q] == locals@[q]@);
                    }
                }
                assert forall|x: Seq<char>, y: Seq<char>|
                    x != y && !seq_lt(x, y) implies #[trigger] pair_lookup(pairs@, x, y) == opt_of(
                    pair_count(cfg, base, x, y) + if processed(lv, 0, 1, x, y) {
                        1int
                    } else {
                        0int
                    },
                ) by {
                    if processed(lv, 0, 1, x, y) {
                        let (p, q) = choose|p: int, q: int|
                            0 <= p < q < lv.len() && (p < 0 || (p == 0 && q < 1))
                                && #[trigger] pair_key(lv[p], lv[q]) == (x, y);
                        assert(false);
                    }
                }
            }
            while i2 < locals.len()
                invariant
                    cfg == record_cfg(tokenizer, tf),
                    views == msgs@.map_values(|m: String| m@),
                    0 <= m < msgs@.len(),
                    base == views.take(m as int),
                    msgs@.len() <= usize::MAX as int,
                    0 <= i2 <= locals@.len(),
                    texts_distinct(locals@),
                    lv == locals@.map_values(|s: String| s@),
                    all_distinct(lv),
                    forall|t: Seq<char>|
                        #[trigger] has_text(locals@, t) <==> retained_of(cfg, msgv).contains(t),
                    singles_distinct(singles@),
                    pairs_distinct(pairs@),
                    pairs_canonical(pairs@),
                    forall|t: Seq<char>| #[trigger] single_lookup(singles@, t) == opt_of(
                        single_count(cfg, base, t) + if has_text(locals@, t) {
                            1int
                        } else {
                            0int
                        },
                    ),
                    forall|x: Seq<char>, y: Seq<char>|
                        x != y && !seq_lt(x, y) ==> #[trigger] pair_lookup(pairs@, x, y) == opt_of(
                            pair_count(cfg, base, x, y) + if processed(
                                lv,
                                i2 as int,
                                i2 + 1,
                                x,
                                y,
                            ) {
                                1int
                            } else {
                                0int
                            },
                        ),
                decreases locals@.len() - i2,
            {
                let mut j2: usize = i2 + 1;
                while j2 < locals.len()
                    invariant
                        cfg == record_cfg(tokenizer, tf),
                        views == msgs@.map_values(|m: String| m@),
                        0 <= m < msgs@.len(),
                        base == views.take(m as int),
                        msgs@.len() <= usize::MAX as int,
                        0 <= i2 < locals@.len(),
                        i2 < j2 <= locals@.len(),
                        texts_distinct(locals@),
                        lv == locals@.map_values(|s: String| s@),
                        all_distinct(lv),
                        forall|t: Seq<char>|
                            #[trigger] has_text(locals@, t) <==> retained_of(cfg, msgv).contains(
                                t,
                            ),
                        singles_distinct(singles@),
                        pairs_distinct(pairs@),
                        pairs_canonical(pairs@),
                        forall|t: Seq<char>| #[trigger] single_lookup(singles@, t) == opt_of(
                            single_count(cfg, base, t) + if has_text(locals@, t) {
                                1int
                            } else {
                                0int
                            },
                        ),
                        forall|x: Seq<char>, y: Seq<char>|
                            x != y && !seq_lt(x, y) ==> #[trigger] pair_lookup(pairs@, x, y)
                                == opt_of(
                                pair_count(cfg, base, x, y) + if processed(
                                    lv,
                                    i2 as int,
                                    j2 as int,
                                    x,
                                    y,
                                ) {
                                    1int
                                } else {
                                    0int
                                },
                            ),
                    decreases locals@.len() - j2,
                {
                    let ghost a0 = lv[i2 as int];
                    let ghost b0 = lv[j2 as int];
                    let ghost key = pair_key(a0, b0);
                    proof {
                        assert(a0 == locals@[i2 as int]@);
                        assert(b0 == locals@[j2 as int]@);
                        assert(a0 != b0);
                        lemma_pair_key_canonical(a0, b0);
                        lemma_pair_count_bound(cfg, base, key.0, key.1);
                        assert(base.len() == m as int);
                        assert((m as int) < msgs@.len());
                        assert(msgs@.len() <= usize::MAX as int);
                        assert(usize::MAX as int <= u64::MAX as int);
                        assert(pair_count(cfg, base, key.0, key.1) < u64::MAX as int);
                        assert(!processed(lv, i2 as int, j2 as int, key.0, key.1)) by {
                            if processed(lv, i2 as int, j2 as int, key.0, key.1) {
                                let (p, q) = choose|p: int, q: int|
                                    0 <= p < q < lv.len() && (p < i2 as int || (p == i2 as int && q
                                        < j2 as int)) && #[trigger] pair_key(lv[p], lv[q]) == (
                                    key.0,
                                    key.1,
                                    );
                                assert(pair_key(lv[p], lv[q]) == pair_key(a0, b0));
                                lemma_pair_positions_unique(lv, p, q, i2 as int, j2 as int);
                                assert(false);
                            }
                        }
                    }
                    let lt = str_lt(locals[i2].as_str(), locals[j2].as_str());
                    if lt {
                        bump_pair(&mut pairs, locals[j2].as_str(), locals[i2].as_str());
                    } else {
                        bump_pair(&mut pairs, locals[i2].as_str(), locals[j2].as_str());
                    }
                    proof {
                        assert forall|x: Seq<char>, y: Seq<char>|
                            x != y && !seq_lt(x, y) implies #[trigger] pair_lookup(pairs@, x, y)
                            == opt_of(
                            pair_count(cfg, base, x, y) + if processed(
                                lv,
                                i2 as int,
                                j2 + 1,
                                x,
                                y,
                            ) {
                                1int
                            } else {
                                0int
                            },
                        ) by {
                            if (x, y) == key {
                                assert(processed(lv, i2 as int, j2 + 1, x, y)) by {
                                    let p = i2 as int;
                                    let q = j2 as int;
                                    assert(0 <= p && p < q && q < lv.len());
                                    assert(p == i2 as int && q < j2 + 1);
                                    assert(pair_key(lv[p], lv[q]) == (x, y));
                                }
                            } else {
                                assert(processed(lv, i2 as int, j2 + 1, x, y) == processed(
                                    lv,
                                    i2 as int,
                                    j2 as int,
                                    x,
                                    y,
                                )) by {
                                    if processed(lv, i2 as int, j2 + 1, x, y) {
                                        let (p, q) = choose|p: int, q: int|
                                            0 <= p < q < lv.len() && (p < i2 as int || (p
                                                == i2 as int && q < j2 + 1))
                                                && #[trigger] pair_key(lv[p], lv[q]) == (x, y);
                                        if p == i2 as int && q == j2 as int {
                                            assert(false);
                                        }
                                        assert(processed(lv, i2 as int, j2 as int, x, y));
                                    }
                                }
                            }
                        }
                    }
                    j2 = j2 + 1;
                }
                proof {
                    assert forall|x: Seq<char>, y: Seq<char>|
                        x != y && !seq_lt(x, y) implies processed(
                        lv,
                        i2 as int,
                        locals@.len() as int,
                        x,
                        y,
                    ) == processed(lv, i2 + 1, i2 + 2, x, y) by {
                        if processed(lv, i2 as int, locals@.len() as int, x, y) {
                            let (p, q) = choose|p: int, q: int|
                                0 <= p < q < lv.len() && (p < i2 as int || (p == i2 as int && q
                                    < locals@.len() as int)) && #[trigger] pair_key(lv[p], lv[q])
                                    == (x, y);
                            assert(p < i2 + 1 || (p == i2 + 1 && q < i2 + 2));
                            assert(processed(lv, i2 + 1, i2 + 2, x, y));
                        }
                        if processed(lv, i2 + 1, i2 + 2, x, y) {
                            let (p, q) = choose|p: int, q: int|
                                0 <= p < q < lv.len() && (p < i2 + 1 || (p == i2 + 1 && q < i2 + 2))
                                    && #[trigger] pair_key(lv[p], lv[q]) == (x, y);
                            assert(p <= i2 as int);
                            assert(processed(lv, i2 as int, locals@.len() as int, x, y));
                        }
                    }
                }
                i2 = i2 + 1;
            }
            proof {
                let full = views.take(m + 1);
                assert(full.drop_last() =~= base);
                assert(full.last() == msgv);
                assert forall|t: Seq<char>| #[trigger] single_lookup(singles@, t) == opt_of(
                    single_count(cfg, full, t),
                ) by {
                    assert(single_count(cfg, full, t) == single_count(cfg, base, t) + if
                        retained_of(cfg, msgv).contains(t) {
                        1int
                    } else {
                        0int
                    });
                }
                assert forall|x: Seq<char>, y: Seq<char>|
                    x != y && !seq_lt(x, y) implies #[trigger] pair_lookup(pairs@, x, y) == opt_of(
                    pair_count(cfg, full, x, y),
                ) by {
                    assert(pair_count(cfg, full, x, y) == pair_count(cfg, base, x, y) + if
                        retained_of(cfg, msgv).contains(x) && retained_of(cfg, msgv).contains(y) {
                        1int
                    } else {
                        0int
                    });
                    assert(processed(lv, locals@.len() as int, locals@.len() as int + 1, x, y) == (
                    retained_of(cfg, msgv).contains(x) && retained_of(cfg, msgv).contains(y))) by {
                        if processed(lv, locals@.len() as int, locals@.len() as int + 1, x, y) {
                            let (p, q) = choose|p: int, q: int|
                                0 <= p < q < lv.len() && (p < locals@.len() as int || (p
                                    == locals@.len() as int && q < locals@.len() + 1))
                                    && #[trigger] pair_key(lv[p], lv[q]) == (x, y);
                            lemma_pair_key_canonical(lv[p], lv[q]);
                            assert(has_text(locals@, x)) by {
                                if lv[p] == x {
                                    assert(locals@[p]@ == x);
                                } else {
                                    assert(lv[q] == x);
                                    assert(locals@[q]@ == x);
                                }
                            }
                            assert(has_text(locals@, y)) by {
                                if lv[p] == y {
                                    assert(locals@[p]@ == y);
                                } else {
                                    assert(lv[q] == y);
                                    assert(locals@[q]@ == y);
                                }
                            }
                        }
                        if retained_of(cfg, msgv).contains(x) && retained_of(cfg, msgv).contains(
                            y,
                        ) {
                            assert(has_text(locals@, x));
                            assert(has_text(locals@, y));
                            let px = choose|px: int|
                                0 <= px < locals@.len() && (#[trigger] locals@[px])@ == x;
                            let py = choose|py: int|
                                0 <= py < locals@.len() && (#[trigger] locals@[py])@ == y;
                            assert(lv[px] == x);
                            assert(lv[py] == y);
                            assert(px != py);
                            lemma_pair_key_sym(x, y);
                            if px < py {
                                assert(pair_key(lv[px], lv[py]) == pair_key(x, y));
                                assert(pair_key(x, y) == (x, y));
                                assert(processed(lv, locals@.len() as int, locals@.len() as int + 1, x, y));
                            } else {
                                assert(pair_key(lv[py], lv[px]) == pair_key(y, x));
                                assert(pair_key(y, x) == pair_key(x, y));
                                assert(pair_key(x, y) == (x, y));
                                assert(processed(lv, locals@.len() as int, locals@.len() as int + 1, x, y));
                            }
                        }
                    }
                }
            }
            m = m + 1;
        }
        proof {
            assert(views.take(msgs@.len() as int) =~= views);
        }
        proof {
            assert forall|i: int| 0 <= i < singles@.len() implies (#[trigger] singles@[i]).1
                >= 1 by {
                lemma_single_lookup_at(singles@, singles@[i].0@, i);
                lemma_single_count_bound(cfg, views, singles@[i].0@);
            }
            assert forall|i: int| 0 <= i < pairs@.len() implies {
                let e = #[trigger] pairs@[i];
                &&& e.2 >= 1
                &&& e.0@ != e.1@
                &&& !seq_lt(e.0@, e.1@)
                &&& single_lookup(singles@, e.0@) is Some
                &&& e.2 <= single_lookup(singles@, e.0@)->0
                &&& single_lookup(singles@, e.1@) is Some
                &&& e.2 <= single_lookup(singles@, e.1@)->0
            } by {
                let e = pairs@[i];
                lemma_pair_lookup_at(pairs@, e.0@, e.1@, i);
                lemma_pair_count_bound(cfg, views, e.0@, e.1@);
                lemma_pair_le_single(cfg, views, e.0@, e.1@);
                lemma_single_count_bound(cfg, views, e.0@);
                lemma_single_count_bound(cfg, views, e.1@);
            }
        }
        let r = TokenRecord { singles, pairs };
        proof {
            assert forall|a: Seq<char>, b: Seq<char>| a != b implies #[trigger] r.co_spec(a, b)
                == opt_of(pair_count(cfg, views, a, b)) by {
                lemma_pair_key_canonical(a, b);
                lemma_pair_count_sym(cfg, views, a, b);
            }
        }
        r
    }
}

} // verus!
