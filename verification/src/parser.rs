//! The parser: wires tokenizer, co-occurrence record, anchor discovery,
//! clustering and template/mask synthesis into one end-to-end pass.

use vstd::prelude::*;
use crate::chars::byte_len;
use crate::cluster::{anchor_keys_spec, anchor_key_spec, candidates_spec, dedup_keys,
    indices_where, lemma_dedup_distinct, lemma_key_in_dedup, lemma_indices_where,
    group_by_anchor_tokens};
use crate::graph::{edge_spec, edges_from, token_set, tokens_distinct};
use crate::pattern::CompiledPattern;
use crate::record::{TokenRecord, RecordCfg, opt_of, single_count, pair_count};
use crate::template::{shared_spec, template_of, mask_of, dedup_strings, repeat_char, str_set,
    shared_slices, templates, parameter_masks, zero_mask};
use crate::token::TokenV;
use crate::token_filter::StaticFilter;
use crate::tokenizer::{Tokenizer, tokenize_spec};

verus! {

/// How many of the first `upto` anchor sets are non-empty: the cluster id the
/// next non-empty one receives.
pub open spec fn count_nonempty(dk: Seq<Set<TokenV>>, upto: int) -> int
    decreases upto,
{
    if upto <= 0 {
        0
    } else {
        count_nonempty(dk, upto - 1) + if dk[upto - 1].is_empty() {
            0int
        } else {
            1int
        }
    }
}

pub proof fn lemma_count_nonempty_bound(dk: Seq<Set<TokenV>>, upto: int)
    ensures
        0 <= count_nonempty(dk, upto) <= (if upto <= 0 {
            0int
        } else {
            upto
        }),
    decreases upto,
{
    if upto > 0 {
        lemma_count_nonempty_bound(dk, upto - 1);
    }
}

pub proof fn lemma_count_nonempty_mono(dk: Seq<Set<TokenV>>, a: int, b: int)
    requires
        0 <= a < b,
        dk[a].is_empty() == false,
    ensures
        count_nonempty(dk, a) < count_nonempty(dk, b),
    decreases b,
{
    if b == a + 1 {
    } else {
        lemma_count_nonempty_mono(dk, a, b - 1);
    }
}

/// The position of the first occurrence of `k`, or the length if absent.
pub open spec fn key_index(dk: Seq<Set<TokenV>>, k: Set<TokenV>) -> int
    decreases dk.len(),
{
    if dk.len() == 0 {
        0
    } else if dk[0] == k {
        0
    } else {
        1 + key_index(dk.drop_first(), k)
    }
}

pub proof fn lemma_key_index_nonneg(dk: Seq<Set<TokenV>>, k: Set<TokenV>)
    ensures
        key_index(dk, k) >= 0,
    decreases dk.len(),
{
    if dk.len() > 0 && dk[0] != k {
        lemma_key_index_nonneg(dk.drop_first(), k);
    }
}

pub proof fn lemma_key_index(dk: Seq<Set<TokenV>>, k: Set<TokenV>)
    requires
        dk.contains(k),
    ensures
        0 <= key_index(dk, k) < dk.len(),
        dk[key_index(dk, k)] == k,
    decreases dk.len(),
{
    if dk.len() > 0 && dk[0] != k {
        assert(dk.drop_first().contains(k)) by {
            let p = choose|p: int| 0 <= p < dk.len() && dk[p] == k;
            assert(dk.drop_first()[p - 1] == k);
        }
        lemma_key_index(dk.drop_first(), k);
        assert(dk[key_index(dk, k)] == dk.drop_first()[key_index(dk.drop_first(), k)]);
    }
}

/// In a duplicate-free list the first occurrence of an element is its only
/// position.
pub proof fn lemma_key_index_at(dk: Seq<Set<TokenV>>, g: int)
    requires
        forall|g1: int, g2: int|
            0 <= g1 < g2 < dk.len() ==> #[trigger] dk[g1] != #[trigger] dk[g2],
        0 <= g < dk.len(),
    ensures
        key_index(dk, dk[g]) == g,
{
    assert(dk.contains(dk[g]));
    lemma_key_index(dk, dk[g]);
    let g0 = key_index(dk, dk[g]);
    if g0 < g {
        assert(dk[g0] != dk[g]);
        assert(false);
    } else if g0 > g {
        assert(dk[g] != dk[g0]);
        assert(false);
    }
}

/// The cluster id of each message: its anchor set's rank among the distinct
/// non-empty anchor sets, in order of first appearance; none when the anchor
/// set is empty.
pub open spec fn clusters_spec(keys: Seq<Set<TokenV>>) -> Seq<Option<usize>> {
    let dk = dedup_keys(keys);
    Seq::new(
        keys.len(),
        |i: int|
            if keys[i].is_empty() {
                None
            } else {
                Some(count_nonempty(dk, key_index(dk, keys[i])) as usize)
            },
    )
}

pub proof fn lemma_dedup_len(keys: Seq<Set<TokenV>>)
    ensures
        dedup_keys(keys).len() <= keys.len(),
    decreases keys.len(),
{
    if keys.len() > 0 {
        lemma_dedup_len(keys.drop_last());
    }
}

/// Two messages with the same cluster id have the same anchor set.
pub proof fn lemma_same_cluster_same_anchor(keys: Seq<Set<TokenV>>, i: int, j: int)
    requires
        keys.len() <= usize::MAX,
        0 <= i < keys.len(),
        0 <= j < keys.len(),
        clusters_spec(keys)[i] is Some,
        clusters_spec(keys)[i] == clusters_spec(keys)[j],
    ensures
        keys[i] == keys[j],
{
    let dk = dedup_keys(keys);
    lemma_dedup_distinct(keys);
    lemma_key_in_dedup(keys, i);
    lemma_key_in_dedup(keys, j);
    lemma_key_index(dk, keys[i]);
    lemma_key_index(dk, keys[j]);
    let gi = key_index(dk, keys[i]);
    let gj = key_index(dk, keys[j]);
    lemma_dedup_len(keys);
    lemma_count_nonempty_bound(dk, gi);
    lemma_count_nonempty_bound(dk, gj);
    assert(count_nonempty(dk, gi) as usize == count_nonempty(dk, gj) as usize);
    assert(count_nonempty(dk, gi) == count_nonempty(dk, gj));
    if gi < gj {
        lemma_count_nonempty_mono(dk, gi, gj);
        assert(false);
    } else if gj < gi {
        lemma_count_nonempty_mono(dk, gj, gi);
        assert(false);
    }
}

/// The messages of a cluster, in ascending index order.
pub open spec fn member_views(msgs: Seq<Seq<char>>, idxs: Seq<usize>) -> Seq<Seq<char>> {
    idxs.map_values(|u: usize| msgs[u as int])
}

/// The distinct non-empty anchor sets, in order of first appearance.
pub open spec fn nonempty_keys(dk: Seq<Set<TokenV>>) -> Seq<Set<TokenV>>
    decreases dk.len(),
{
    if dk.len() == 0 {
        Seq::empty()
    } else if dk.last().is_empty() {
        nonempty_keys(dk.drop_last())
    } else {
        nonempty_keys(dk.drop_last()).push(dk.last())
    }
}

/// The shared-slice set of the cluster whose anchor set is `k`.
pub open spec fn cluster_shared(
    whites: Seq<Seq<char>>,
    blacks: Seq<Seq<char>>,
    tpl_symbols: Seq<char>,
    fa: bool,
    fnum: bool,
    fi: bool,
    msgs: Seq<Seq<char>>,
    keys: Seq<Set<TokenV>>,
    k: Set<TokenV>,
) -> Set<Seq<char>> {
    shared_spec(whites, blacks, tpl_symbols, fa, fnum, fi, member_views(
        msgs,
        indices_where(keys, k),
    ))
}

/// The distinct templates of the cluster whose anchor set is `k`, in order of
/// first appearance among its members.
pub open spec fn cluster_templates(
    whites: Seq<Seq<char>>,
    blacks: Seq<Seq<char>>,
    tpl_symbols: Seq<char>,
    fa: bool,
    fnum: bool,
    fi: bool,
    msgs: Seq<Seq<char>>,
    keys: Seq<Set<TokenV>>,
    k: Set<TokenV>,
) -> Seq<Seq<char>> {
    let members = member_views(msgs, indices_where(keys, k));
    let shared = shared_spec(whites, blacks, tpl_symbols, fa, fnum, fi, members);
    dedup_strings(
        Seq::new(
            members.len(),
            |p: int| template_of(whites, blacks, tpl_symbols, shared, members[p]),
        ),
    )
}

/// The template sets of the clusters whose anchor sets `dkp` lists.
pub open spec fn tmpl_list(
    whites: Seq<Seq<char>>,
    blacks: Seq<Seq<char>>,
    tpl_symbols: Seq<char>,
    fa: bool,
    fnum: bool,
    fi: bool,
    msgs: Seq<Seq<char>>,
    keys: Seq<Set<TokenV>>,
    dkp: Seq<Set<TokenV>>,
) -> Seq<Seq<Seq<char>>> {
    nonempty_keys(dkp).map_values(
        |k: Set<TokenV>|
            cluster_templates(whites, blacks, tpl_symbols, fa, fnum, fi, msgs, keys, k),
    )
}

/// The template sets of all clusters, aligned with the cluster ids.
pub open spec fn templates_spec(
    whites: Seq<Seq<char>>,
    blacks: Seq<Seq<char>>,
    tpl_symbols: Seq<char>,
    fa: bool,
    fnum: bool,
    fi: bool,
    msgs: Seq<Seq<char>>,
    keys: Seq<Set<TokenV>>,
) -> Seq<Seq<Seq<char>>> {
    tmpl_list(whites, blacks, tpl_symbols, fa, fnum, fi, msgs, keys, dedup_keys(keys))
}

/// The views of a template-set list.
pub open spec fn temps_view(ts: Seq<Vec<String>>) -> Seq<Seq<Seq<char>>> {
    ts.map_values(|v: Vec<String>| v@.map_values(|s: String| s@))
}

/// The parameter mask of each message: computed against its own cluster's
/// shared slices, or all-literal when the message is in no cluster.
pub open spec fn masks_spec(
    whites: Seq<Seq<char>>,
    blacks: Seq<Seq<char>>,
    tpl_symbols: Seq<char>,
    fa: bool,
    fnum: bool,
    fi: bool,
    msgs: Seq<Seq<char>>,
    keys: Seq<Set<TokenV>>,
) -> Seq<Seq<char>> {
    Seq::new(
        msgs.len(),
        |i: int|
            if keys[i].is_empty() {
                repeat_char('0', byte_len(msgs[i]))
            } else {
                mask_of(
                    whites,
                    blacks,
                    tpl_symbols,
                    cluster_shared(whites, blacks, tpl_symbols, fa, fnum, fi, msgs, keys, keys[i]),
                    msgs[i],
                )
            },
    )
}

/// Two records that agree on every count give every message the same
/// candidate list.
pub proof fn lemma_candidates_congruent(toks: Seq<TokenV>, rec1: TokenRecord, rec2: TokenRecord)
    requires
        forall|t: Seq<char>| #[trigger] rec1.occ_spec(t) == rec2.occ_spec(t),
    ensures
        candidates_spec(toks, rec1) == candidates_spec(toks, rec2),
    decreases toks.len(),
{
    if toks.len() > 0 {
        lemma_candidates_congruent(toks.drop_last(), rec1, rec2);
    }
}

pub proof fn lemma_edges_congruent(
    cands: Seq<TokenV>,
    rec1: TokenRecord,
    rec2: TokenRecord,
    tn: int,
    td: int,
    i: int,
    j: int,
)
    requires
        forall|t: Seq<char>| #[trigger] rec1.occ_spec(t) == rec2.occ_spec(t),
        forall|a: Seq<char>, b: Seq<char>|
            a != b ==> #[trigger] rec1.co_spec(a, b) == rec2.co_spec(a, b),
    ensures
        edges_from(rec1, tn, td, cands, i, j) == edges_from(rec2, tn, td, cands, i, j),
    decreases cands.len() - i, cands.len() - j,
{
    if !(0 <= i < cands.len()) {
    } else if j <= i || j >= cands.len() {
        lemma_edges_congruent(cands, rec1, rec2, tn, td, i + 1, i + 2);
    } else {
        lemma_edges_congruent(cands, rec1, rec2, tn, td, i, j + 1);
        assert(edge_spec(rec1, tn, td, cands[i].text, cands[j].text) == edge_spec(
            rec2,
            tn,
            td,
            cands[i].text,
            cands[j].text,
        ));
        assert(edge_spec(rec1, tn, td, cands[j].text, cands[i].text) == edge_spec(
            rec2,
            tn,
            td,
            cands[j].text,
            cands[i].text,
        ));
    }
}

/// The parse of a corpus is a function of the corpus and the configuration
/// alone: any two records holding the counts of the same corpus under the
/// same configuration give every message the same anchor set, and with it the
/// same clusters, templates and masks. Two invocations on identical input
/// therefore produce identical output.
pub proof fn lemma_parse_deterministic(
    whites: Seq<Seq<char>>,
    blacks: Seq<Seq<char>>,
    symbols: Seq<char>,
    cfg: RecordCfg,
    rec1: TokenRecord,
    rec2: TokenRecord,
    tn: int,
    td: int,
    msgs: Seq<Seq<char>>,
)
    requires
        rec1.matches_counts(cfg, msgs),
        rec2.matches_counts(cfg, msgs),
    ensures
        anchor_keys_spec(whites, blacks, symbols, rec1, tn, td, msgs) == anchor_keys_spec(
            whites,
            blacks,
            symbols,
            rec2,
            tn,
            td,
            msgs,
        ),
{
    assert forall|t: Seq<char>| #[trigger] rec1.occ_spec(t) == rec2.occ_spec(t) by {
        assert(rec1.occ_spec(t) == opt_of(single_count(cfg, msgs, t)));
        assert(rec2.occ_spec(t) == opt_of(single_count(cfg, msgs, t)));
    }
    assert forall|a: Seq<char>, b: Seq<char>| a != b implies #[trigger] rec1.co_spec(a, b)
        == rec2.co_spec(a, b) by {
        assert(rec1.co_spec(a, b) == opt_of(pair_count(cfg, msgs, a, b)));
        assert(rec2.co_spec(a, b) == opt_of(pair_count(cfg, msgs, a, b)));
    }
    assert forall|i: int| 0 <= i < msgs.len() implies #[trigger] anchor_key_spec(
        whites,
        blacks,
        symbols,
        rec1,
        tn,
        td,
        msgs[i],
    ) == anchor_key_spec(whites, blacks, symbols, rec2, tn, td, msgs[i]) by {
        let toks = tokenize_spec(msgs[i], whites, blacks, symbols);
        lemma_candidates_congruent(toks, rec1, rec2);
        lemma_edges_congruent(candidates_spec(toks, rec1), rec1, rec2, tn, td, 0, 1);
    }
    assert(anchor_keys_spec(whites, blacks, symbols, rec1, tn, td, msgs) =~= anchor_keys_spec(
        whites,
        blacks,
        symbols,
        rec2,
        tn,
        td,
        msgs,
    ));
}

/// The messages of a corpus, as character sequences.
pub open spec fn corpus_views(messages: &Vec<String>) -> Seq<Seq<char>> {
    messages@.map_values(|m: String| m@)
}

/// The cluster id of message `i` once the first `g` distinct anchor sets have
/// been processed.
pub open spec fn cluster_upto(keys: Seq<Set<TokenV>>, i: int, g: int) -> Option<usize> {
    let dk = dedup_keys(keys);
    if keys[i].is_empty() {
        None
    } else if key_index(dk, keys[i]) < g {
        Some(count_nonempty(dk, key_index(dk, keys[i])) as usize)
    } else {
        None
    }
}

/// The mask of message `i` once the first `g` distinct anchor sets have been
/// processed: still all-literal until its own cluster's turn.
pub open spec fn mask_upto(
    whites: Seq<Seq<char>>,
    blacks: Seq<Seq<char>>,
    tpl_symbols: Seq<char>,
    fa: bool,
    fnum: bool,
    fi: bool,
    msgs: Seq<Seq<char>>,
    keys: Seq<Set<TokenV>>,
    i: int,
    g: int,
) -> Seq<char> {
    if keys[i].is_empty() || key_index(dedup_keys(keys), keys[i]) >= g {
        repeat_char('0', byte_len(msgs[i]))
    } else {
        mask_of(
            whites,
            blacks,
            tpl_symbols,
            cluster_shared(whites, blacks, tpl_symbols, fa, fnum, fi, msgs, keys, keys[i]),
            msgs[i],
        )
    }
}

/// The ASCII punctuation the template tokenizer uses as its symbol set.
pub open spec fn punct() -> Seq<char> {
    seq![
        '!', '"', '#', '$', '%', '&', '\'', '(', ')', '*', '+', ',', '-', '.', '/', ':', ';', '<',
        '=', '>', '?', '@', '[', '\\', ']', '^', '_', '`', '{', '|', '}', '~',
    ]
}

fn punct_symbols() -> (r: Vec<char>)
    ensures
        r@ == punct(),
{
    let mut r: Vec<char> = Vec::new();
    r.push('!');
    r.push('"');
    r.push('#');
    r.push('$');
    r.push('%');
    r.push('&');
    r.push('\'');
    r.push('(');
    r.push(')');
    r.push('*');
    r.push('+');
    r.push(',');
    r.push('-');
    r.push('.');
    r.push('/');
    r.push(':');
    r.push(';');
    r.push('<');
    r.push('=');
    r.push('>');
    r.push('?');
    r.push('@');
    r.push('[');
    r.push('\\');
    r.push(']');
    r.push('^');
    r.push('_');
    r.push('`');
    r.push('{');
    r.push('|');
    r.push('}');
    r.push('~');
    proof {
        assert(r@ =~= punct());
    }
    r
}

fn copy_indices(v: &Vec<usize>) -> (r: Vec<usize>)
    ensures
        r@ == v@,
{
    let mut r: Vec<usize> = Vec::new();
    let mut i: usize = 0;
    while i < v.len()
        invariant
            0 <= i <= v@.len(),
            r@ == v@.take(i as int),
        decreases v@.len() - i,
    {
        r.push(v[i]);
        proof {
            assert(v@.take(i + 1) =~= v@.take(i as int).push(v@[i as int]));
        }
        i = i + 1;
    }
    proof {
        assert(v@.take(v@.len() as int) =~= v@);
    }
    r
}

/// The messages at the given indices, in order.
fn collect_members(messages: &Vec<String>, idxs: &Vec<usize>) -> (r: Vec<String>)
    requires
        forall|p: int| 0 <= p < idxs@.len() ==> (#[trigger] idxs@[p]) < messages@.len(),
    ensures
        r@.map_values(|m: String| m@) == member_views(
            messages@.map_values(|m: String| m@),
            idxs@,
        ),
{
    let ghost msgs = messages@.map_values(|m: String| m@);
    let mut r: Vec<String> = Vec::new();
    let mut p: usize = 0;
    while p < idxs.len()
        invariant
            msgs == messages@.map_values(|m: String| m@),
            forall|q: int| 0 <= q < idxs@.len() ==> (#[trigger] idxs@[q]) < messages@.len(),
            0 <= p <= idxs@.len(),
            r@.len() == p,
            forall|q: int| 0 <= q < p ==> (#[trigger] r@[q])@ == msgs[idxs@[q] as int],
        decreases idxs@.len() - p,
    {
        r.push(messages[idxs[p]].clone());
        p = p + 1;
    }
    proof {
        assert(r@.map_values(|m: String| m@) =~= member_views(msgs, idxs@));
    }
    r
}

/// The log parser, with its threshold, special extractors, symbol set, token
/// filter flags, and the choice of outputs.
pub struct Parser {
    threshold_num: u64,
    threshold_den: u64,
    special_whites: Vec<CompiledPattern>,
    special_blacks: Vec<CompiledPattern>,
    symbols: Vec<char>,
    filter_alphabetic: bool,
    filter_numeric: bool,
    filter_impure: bool,
    want_templates: bool,
    want_masks: bool,
}

impl Parser {
    pub closed spec fn threshold_num_v(&self) -> u64 {
        self.threshold_num
    }

    pub closed spec fn threshold_den_v(&self) -> u64 {
        self.threshold_den
    }

    pub closed spec fn whites_v(&self) -> Seq<Seq<char>> {
        self.special_whites@.map_values(|p: CompiledPattern| p@)
    }

    pub closed spec fn blacks_v(&self) -> Seq<Seq<char>> {
        self.special_blacks@.map_values(|p: CompiledPattern| p@)
    }

    pub closed spec fn symbols_v(&self) -> Seq<char> {
        self.symbols@
    }

    pub closed spec fn filter_alphabetic_v(&self) -> bool {
        self.filter_alphabetic
    }

    pub closed spec fn filter_numeric_v(&self) -> bool {
        self.filter_numeric
    }

    pub closed spec fn filter_impure_v(&self) -> bool {
        self.filter_impure
    }

    pub closed spec fn want_templates_v(&self) -> bool {
        self.want_templates
    }

    pub closed spec fn want_masks_v(&self) -> bool {
        self.want_masks
    }

    /// The threshold is a fraction in [0, 1].
    #[verifier::type_invariant]
    pub closed spec fn threshold_wf(self) -> bool {
        0 < self.threshold_den && self.threshold_num <= self.threshold_den
    }

    /// The record configuration this parser builds its record under.
    pub open spec fn cfg_spec(&self) -> RecordCfg {
        RecordCfg {
            whites: self.whites_v(),
            blacks: self.blacks_v(),
            symbols: self.symbols_v(),
            alphabetic: self.filter_alphabetic_v(),
            numeric: self.filter_numeric_v(),
            impure: self.filter_impure_v(),
        }
    }

    /// A parser with the default parameters: threshold one half, no special
    /// patterns, no symbols, alphabetic tokens filtered in, nothing else; no
    /// templates, no masks.
    pub fn new() -> (r: Parser)
        ensures
            r.threshold_num_v() == 1u64,
            r.threshold_den_v() == 2u64,
            r.whites_v() == Seq::<Seq<char>>::empty(),
            r.blacks_v() == Seq::<Seq<char>>::empty(),
            r.symbols_v() == Seq::<char>::empty(),
            r.filter_alphabetic_v() == true,
            r.filter_numeric_v() == false,
            r.filter_impure_v() == false,
            r.want_templates_v() == false,
            r.want_masks_v() == false,
    {
        let r = Parser {
            threshold_num: 1,
            threshold_den: 2,
            special_whites: Vec::new(),
            special_blacks: Vec::new(),
            symbols: Vec::new(),
            filter_alphabetic: true,
            filter_numeric: false,
            filter_impure: false,
            want_templates: false,
            want_masks: false,
        };
        proof {
            assert(r.whites_v() =~= Seq::<Seq<char>>::empty());
            assert(r.blacks_v() =~= Seq::<Seq<char>>::empty());
        }
        r
    }

    /// Sets the threshold to the fraction `num / den`, which must lie in
    /// [0, 1].
    #[must_use]
    pub fn with_threshold(self, num: u64, den: u64) -> (r: Parser)
        requires
            0 < den,
            num <= den,
        ensures
            r.threshold_num_v() == num,
            r.threshold_den_v() == den,
            r.whites_v() == self.whites_v(),
            r.blacks_v() == self.blacks_v(),
            r.symbols_v() == self.symbols_v(),
            r.filter_alphabetic_v() == self.filter_alphabetic_v(),
            r.filter_numeric_v() == self.filter_numeric_v(),
            r.filter_impure_v() == self.filter_impure_v(),
            r.want_templates_v() == self.want_templates_v(),
            r.want_masks_v() == self.want_masks_v(),
    {
        Parser { threshold_num: num, threshold_den: den, ..self }
    }

    /// Sets the special white patterns: spans they match are never
    /// parameterized.
    #[must_use]
    pub fn with_special_whites(self, value: Vec<CompiledPattern>) -> (r: Parser)
        ensures
            r.whites_v() == value@.map_values(|p: CompiledPattern| p@),
            r.threshold_num_v() == self.threshold_num_v(),
            r.threshold_den_v() == self.threshold_den_v(),
            r.blacks_v() == self.blacks_v(),
            r.symbols_v() == self.symbols_v(),
            r.filter_alphabetic_v() == self.filter_alphabetic_v(),
            r.filter_numeric_v() == self.filter_numeric_v(),
            r.filter_impure_v() == self.filter_impure_v(),
            r.want_templates_v() == self.want_templates_v(),
            r.want_masks_v() == self.want_masks_v(),
    {
        proof {
            use_type_invariant(&self);
        }
        Parser { special_whites: value, ..self }
    }

    /// Sets the special black patterns: spans they match are always
    /// parameterized.
    #[must_use]
    pub fn with_special_blacks(self, value: Vec<CompiledPattern>) -> (r: Parser)
        ensures
            r.blacks_v() == value@.map_values(|p: CompiledPattern| p@),
            r.threshold_num_v() == self.threshold_num_v(),
            r.threshold_den_v() == self.threshold_den_v(),
            r.whites_v() == self.whites_v(),
            r.symbols_v() == self.symbols_v(),
            r.filter_alphabetic_v() == self.filter_alphabetic_v(),
            r.filter_numeric_v() == self.filter_numeric_v(),
            r.filter_impure_v() == self.filter_impure_v(),
            r.want_templates_v() == self.want_templates_v(),
            r.want_masks_v() == self.want_masks_v(),
    {
        proof {
            use_type_invariant(&self);
        }
        Parser { special_blacks: value, ..self }
    }

    /// Sets the symbol characters, which split unrefined spans alongside
    /// whitespace.
    #[must_use]
    pub fn with_symbols(self, value: Vec<char>) -> (r: Parser)
        ensures
            r.symbols_v() == value@,
            r.threshold_num_v() == self.threshold_num_v(),
            r.threshold_den_v() == self.threshold_den_v(),
            r.whites_v() == self.whites_v(),
            r.blacks_v() == self.blacks_v(),
            r.filter_alphabetic_v() == self.filter_alphabetic_v(),
            r.filter_numeric_v() == self.filter_numeric_v(),
            r.filter_impure_v() == self.filter_impure_v(),
            r.want_templates_v() == self.want_templates_v(),
            r.want_masks_v() == self.want_masks_v(),
    {
        proof {
            use_type_invariant(&self);
        }
        Parser { symbols: value, ..self }
    }

    /// Whether alphabetic tokens take part in anchor discovery.
    #[must_use]
    pub fn with_filter_alphabetic(self, value: bool) -> (r: Parser)
        ensures
            r.filter_alphabetic_v() == value,
            r.threshold_num_v() == self.threshold_num_v(),
            r.threshold_den_v() == self.threshold_den_v(),
            r.whites_v() == self.whites_v(),
            r.blacks_v() == self.blacks_v(),
            r.symbols_v() == self.symbols_v(),
            r.filter_numeric_v() == self.filter_numeric_v(),
            r.filter_impure_v() == self.filter_impure_v(),
            r.want_templates_v() == self.want_templates_v(),
            r.want_masks_v() == self.want_masks_v(),
    {
        proof {
            use_type_invariant(&self);
        }
        Parser { filter_alphabetic: value, ..self }
    }

    /// Whether numeric tokens take part in anchor discovery.
    #[must_use]
    pub fn with_filter_numeric(self, value: bool) -> (r: Parser)
        ensures
            r.filter_numeric_v() == value,
            r.threshold_num_v() == self.threshold_num_v(),
            r.threshold_den_v() == self.threshold_den_v(),
            r.whites_v() == self.whites_v(),
            r.blacks_v() == self.blacks_v(),
            r.symbols_v() == self.symbols_v(),
            r.filter_alphabetic_v() == self.filter_alphabetic_v(),
            r.filter_impure_v() == self.filter_impure_v(),
            r.want_templates_v() == self.want_templates_v(),
            r.want_masks_v() == self.want_masks_v(),
    {
        proof {
            use_type_invariant(&self);
        }
        Parser { filter_numeric: value, ..self }
    }

    /// Whether impure tokens take part in anchor discovery.
    #[must_use]
    pub fn with_filter_impure(self, value: bool) -> (r: Parser)
        ensures
            r.filter_impure_v() == value,
            r.threshold_num_v() == self.threshold_num_v(),
            r.threshold_den_v() == self.threshold_den_v(),
            r.whites_v() == self.whites_v(),
            r.blacks_v() == self.blacks_v(),
            r.symbols_v() == self.symbols_v(),
            r.filter_alphabetic_v() == self.filter_alphabetic_v(),
            r.filter_numeric_v() == self.filter_numeric_v(),
            r.want_templates_v() == self.want_templates_v(),
            r.want_masks_v() == self.want_masks_v(),
    {
        proof {
            use_type_invariant(&self);
        }
        Parser { filter_impure: value, ..self }
    }

    /// Adds template computation to the output.
    #[must_use]
    pub fn compute_templates(self) -> (r: Parser)
        ensures
            r.want_templates_v() == true,
            r.threshold_num_v() == self.threshold_num_v(),
            r.threshold_den_v() == self.threshold_den_v(),
            r.whites_v() == self.whites_v(),
            r.blacks_v() == self.blacks_v(),
            r.symbols_v() == self.symbols_v(),
            r.filter_alphabetic_v() == self.filter_alphabetic_v(),
            r.filter_numeric_v() == self.filter_numeric_v(),
            r.filter_impure_v() == self.filter_impure_v(),
            r.want_masks_v() == self.want_masks_v(),
    {
        proof {
            use_type_invariant(&self);
        }
        Parser { want_templates: true, ..self }
    }

    /// Adds parameter-mask computation to the output.
    #[must_use]
    pub fn compute_masks(self) -> (r: Parser)
        ensures
            r.want_masks_v() == true,
            r.threshold_num_v() == self.threshold_num_v(),
            r.threshold_den_v() == self.threshold_den_v(),
            r.whites_v() == self.whites_v(),
            r.blacks_v() == self.blacks_v(),
            r.symbols_v() == self.symbols_v(),
            r.filter_alphabetic_v() == self.filter_alphabetic_v(),
            r.filter_numeric_v() == self.filter_numeric_v(),
            r.filter_impure_v() == self.filter_impure_v(),
            r.want_templates_v() == self.want_templates_v(),
    {
        proof {
            use_type_invariant(&self);
        }
        Parser { want_masks: true, ..self }
    }
}

impl Default for Parser {
    /// The default parser: see `Parser::new`.
    fn default() -> (r: Parser)
        ensures
            r.threshold_num_v() == 1u64,
            r.threshold_den_v() == 2u64,
            r.whites_v() == Seq::<Seq<char>>::empty(),
            r.blacks_v() == Seq::<Seq<char>>::empty(),
            r.symbols_v() == Seq::<char>::empty(),
            r.filter_alphabetic_v() == true,
            r.filter_numeric_v() == false,
            r.filter_impure_v() == false,
            r.want_templates_v() == false,
            r.want_masks_v() == false,
    {
        Parser::new()
    }
}

impl Parser {
    /// Parses the corpus: clusters the messages by anchor set and, as
    /// requested, synthesizes per-cluster templates and per-message parameter
    /// masks.
    ///
    /// The result is pinned to a function of the messages and of this
    /// configuration alone (see `lemma_parse_deterministic`): `r.0` holds each
    /// message's cluster id, or none when its anchor set is empty; `r.1` the
    /// template set per cluster when requested, else nothing; `r.2` one mask
    /// per message when requested, else nothing. Every mask has exactly the
    /// byte length of its message and holds only `'0'` and `'1'`.
    pub fn parse(self, messages: &Vec<String>) -> (r: (
        Vec<Option<usize>>,
        Vec<Vec<String>>,
        Vec<String>,
    ))
        ensures
            r.0@.len() == messages@.len(),
            !self.want_templates_v() ==> r.1@.len() == 0,
            !self.want_masks_v() ==> r.2@.len() == 0,
            self.want_masks_v() ==> r.2@.len() == messages@.len() && (forall|i: int|
                0 <= i < r.2@.len() ==> (#[trigger] r.2@[i])@.len() == byte_len(
                    messages@.map_values(|m: String| m@)[i],
                ) && (forall|p: int|
                    0 <= p < r.2@[i]@.len() ==> (#[trigger] r.2@[i]@[p]) == '0' || r.2@[i]@[p]
                        == '1')),
            exists|rec: TokenRecord|
                #[trigger] rec.matches_counts(self.cfg_spec(), corpus_views(messages)) && {
                    let msgs = corpus_views(messages);
                    let keys = anchor_keys_spec(
                        self.whites_v(),
                        self.blacks_v(),
                        self.symbols_v(),
                        rec,
                        self.threshold_num_v() as int,
                        self.threshold_den_v() as int,
                        msgs,
                    );
                    &&& r.0@ == clusters_spec(keys)
                    &&& temps_view(r.1@) == (if self.want_templates_v() {
                        templates_spec(
                            self.whites_v(),
                            self.blacks_v(),
                            punct(),
                            self.filter_alphabetic_v(),
                            self.filter_numeric_v(),
                            self.filter_impure_v(),
                            msgs,
                            keys,
                        )
                    } else {
                        Seq::<Seq<Seq<char>>>::empty()
                    })
                    &&& r.2@.map_values(|s: String| s@) == (if self.want_masks_v() {
                        masks_spec(
                            self.whites_v(),
                            self.blacks_v(),
                            punct(),
                            self.filter_alphabetic_v(),
                            self.filter_numeric_v(),
                            self.filter_impure_v(),
                            msgs,
                            keys,
                        )
                    } else {
                        Seq::<Seq<char>>::empty()
                    })
                },
    {
        proof {
            use_type_invariant(&self);
        }
        let ghost whites = self.whites_v();
        let ghost blacks = self.blacks_v();
        let ghost symbols = self.symbols_v();
        let ghost fa_g = self.filter_alphabetic_v();
        let ghost fb_g = self.filter_numeric_v();
        let ghost fc_g = self.filter_impure_v();
        let ghost cfg0 = self.cfg_spec();
        let tn = self.threshold_num;
        let td = self.threshold_den;
        let wt = self.want_templates;
        let wm = self.want_masks;
        let fa = self.filter_alphabetic;
        let fb = self.filter_numeric;
        let fc = self.filter_impure;
        let tok_a = Tokenizer::new(self.special_whites, self.special_blacks, self.symbols);
        let filter = StaticFilter::with(fa, fb, fc);
        let rec = TokenRecord::new(messages, &tok_a, &filter);
        proof {
            assert(crate::record::record_cfg(&tok_a, &filter) == cfg0);
        }
        let groups = group_by_anchor_tokens(messages, &tok_a, &rec, tn, td);
        let ghost msgs = messages@.map_values(|m: String| m@);
        let ghost keys = anchor_keys_spec(whites, blacks, symbols, rec, tn as int, td as int, msgs);
        let ghost dk = dedup_keys(keys);
        proof {
            lemma_dedup_distinct(keys);
            lemma_dedup_len(keys);
            assert(keys.len() == msgs.len());
        }
        let n = messages.len();
        let mut clus: Vec<Option<usize>> = Vec::new();
        let mut i0: usize = 0;
        while i0 < n
            invariant
                keys.len() == n as int,
                dk == dedup_keys(keys),
                0 <= i0 <= n,
                clus@.len() == i0,
                forall|i: int| 0 <= i < i0 ==> #[trigger] clus@[i] == cluster_upto(keys, i, 0),
            decreases n - i0,
        {
            clus.push(None);
            proof {
                lemma_key_index_nonneg(dk, keys[i0 as int]);
                assert(clus@[i0 as int] == cluster_upto(keys, i0 as int, 0));
            }
            i0 = i0 + 1;
        }
        let mut masks: Vec<String> = Vec::new();
        if wm {
            let mut i1: usize = 0;
            while i1 < n
                invariant
                    msgs == messages@.map_values(|m: String| m@),
                    keys.len() == n as int,
                    dk == dedup_keys(keys),
                    n == messages@.len(),
                    0 <= i1 <= n,
                    masks@.len() == i1,
                    forall|i: int|
                        0 <= i < i1 ==> (#[trigger] masks@[i])@ == mask_upto(
                            whites,
                            blacks,
                            punct(),
                            fa_g,
                            fb_g,
                            fc_g,
                            msgs,
                            keys,
                            i,
                            0,
                        ),
                decreases n - i1,
            {
                let z = zero_mask(messages[i1].as_str());
                proof {
                    assert(msgs[i1 as int] == messages@[i1 as int]@);
                }
                masks.push(z);
                proof {
                    lemma_key_index_nonneg(dk, keys[i1 as int]);
                    assert(masks@[i1 as int]@ == mask_upto(
                        whites,
                        blacks,
                        punct(),
                        fa_g,
                        fb_g,
                        fc_g,
                        msgs,
                        keys,
                        i1 as int,
                        0,
                    ));
                }
                i1 = i1 + 1;
            }
        }
        let mut temps: Vec<Vec<String>> = Vec::new();
        let tok_b = tok_a.new_with_symbols(punct_symbols());
        let ghost tsym = punct();
        let mut cid: usize = 0;
        let mut g: usize = 0;
        proof {
            if wm {
                assert forall|i: int| 0 <= i < n implies (#[trigger] masks@[i])@.len() == byte_len(
                    msgs[i],
                ) && (forall|p: int|
                    0 <= p < masks@[i]@.len() ==> (#[trigger] masks@[i]@[p]) == '0' || masks@[i]@[p]
                        == '1') by {
                    crate::chars::lemma_byte_len_nonneg(msgs[i]);
                    lemma_key_index_nonneg(dk, keys[i]);
                }
            }
            assert(dk.take(0) =~= Seq::<Set<TokenV>>::empty());
            assert(temps_view(temps@) =~= tmpl_list(
                whites,
                blacks,
                tsym,
                fa_g,
                fb_g,
                fc_g,
                msgs,
                keys,
                dk.take(0),
            ));
        }
        while g < groups.len()
            invariant
                td > 0,
                msgs == messages@.map_values(|m: String| m@),
                n == messages@.len(),
                keys == anchor_keys_spec(whites, blacks, symbols, rec, tn as int, td as int, msgs),
                keys.len() == n as int,
                dk == dedup_keys(keys),
                dk.len() <= keys.len(),
                forall|g1: int, g2: int|
                    0 <= g1 < g2 < dk.len() ==> #[trigger] dk[g1] != #[trigger] dk[g2],
                groups@.len() == dk.len(),
                forall|g0: int|
                    0 <= g0 < groups@.len() ==> {
                        &&& tokens_distinct(crate::token::views_of((#[trigger] groups@[g0]).0@))
                        &&& token_set(crate::token::views_of(groups@[g0].0@)) == dk[g0]
                        &&& groups@[g0].1@ == indices_where(keys, dk[g0])
                    },
                tok_b.whites_view() == whites,
                tok_b.blacks_view() == blacks,
                tok_b.symbols_view() == tsym,
                tsym == punct(),
                fa == fa_g,
                fb == fb_g,
                fc == fc_g,
                0 <= g <= groups@.len(),
                cid == count_nonempty(dk, g as int),
                clus@.len() == n,
                forall|i: int| 0 <= i < n ==> #[trigger] clus@[i] == cluster_upto(keys, i, g as int),
                wm ==> masks@.len() == n && (forall|i: int|
                    0 <= i < n ==> (#[trigger] masks@[i])@ == mask_upto(
                        whites,
                        blacks,
                        tsym,
                        fa_g,
                        fb_g,
                        fc_g,
                        msgs,
                        keys,
                        i,
                        g as int,
                    )),
                wm ==> (forall|i: int|
                    0 <= i < n ==> (#[trigger] masks@[i])@.len() == byte_len(msgs[i]) && (forall|
                        p: int,
                    |
                        0 <= p < masks@[i]@.len() ==> (#[trigger] masks@[i]@[p]) == '0'
                            || masks@[i]@[p] == '1')),
                !wm ==> masks@.len() == 0,
                wt ==> temps_view(temps@) == tmpl_list(
                    whites,
                    blacks,
                    tsym,
                    fa_g,
                    fb_g,
                    fc_g,
                    msgs,
                    keys,
                    dk.take(g as int),
                ),
                !wt ==> temps@.len() == 0,
            decreases groups@.len() - g,
        {
            let key_nonempty = groups[g].0.len() > 0;
            proof {
                if key_nonempty {
                    assert(crate::token::views_of(groups@[g as int].0@).contains(
                        crate::token::views_of(groups@[g as int].0@)[0],
                    ));
                    assert(token_set(crate::token::views_of(groups@[g as int].0@)).contains(
                        crate::token::views_of(groups@[g as int].0@)[0],
                    ));
                    assert(dk[g as int].contains(crate::token::views_of(groups@[g as int].0@)[0]));
                    assert(!dk[g as int].is_empty());
                } else {
                    assert(crate::token::views_of(groups@[g as int].0@).len() == 0);
                    assert forall|x: TokenV| !token_set(
                        crate::token::views_of(groups@[g as int].0@),
                    ).contains(x) by {}
                    assert(dk[g as int] =~= Set::<TokenV>::empty());
                    assert(dk[g as int].is_empty());
                }
                assert(dk.take(g + 1).drop_last() =~= dk.take(g as int));
                assert(dk.take(g + 1).last() == dk[g as int]);
                lemma_key_index_at(dk, g as int);
            }
            if key_nonempty {
                let idxs = copy_indices(&groups[g].1);
                proof {
                    lemma_indices_where(keys, dk[g as int]);
                    assert(idxs@ == indices_where(keys, dk[g as int]));
                }
                let members = collect_members(messages, &idxs);
                let ghost mviews = member_views(msgs, idxs@);
                let shared = shared_slices(&members, &tok_b, fa, fb, fc);
                proof {
                    assert(members@.map_values(|m: String| m@) == mviews);
                    assert(str_set(shared@) == cluster_shared(
                        whites,
                        blacks,
                        tsym,
                        fa_g,
                        fb_g,
                        fc_g,
                        msgs,
                        keys,
                        dk[g as int],
                    ));
                }
                if wt {
                    let ghost temps_before = temps@;
                    let tvec = templates(&members, &tok_b, &shared);
                    proof {
                        assert(tvec@.map_values(|s: String| s@) == cluster_templates(
                            whites,
                            blacks,
                            tsym,
                            fa_g,
                            fb_g,
                            fc_g,
                            msgs,
                            keys,
                            dk[g as int],
                        )) by {
                            assert(Seq::new(
                                members@.len(),
                                |i: int|
                                    template_of(
                                        tok_b.whites_view(),
                                        tok_b.blacks_view(),
                                        tok_b.symbols_view(),
                                        str_set(shared@),
                                        members@.map_values(|m: String| m@)[i],
                                    ),
                            ) =~= Seq::new(
                                mviews.len(),
                                |p: int|
                                    template_of(
                                        whites,
                                        blacks,
                                        tsym,
                                        cluster_shared(
                                            whites,
                                            blacks,
                                            tsym,
                                            fa_g,
                                            fb_g,
                                            fc_g,
                                            msgs,
                                            keys,
                                            dk[g as int],
                                        ),
                                        mviews[p],
                                    ),
                            ));
                        }
                    }
                    let ghost tvv = tvec@.map_values(|s: String| s@);
                    temps.push(tvec);
                    proof {
                        assert(nonempty_keys(dk.take(g + 1)) == nonempty_keys(
                            dk.take(g as int),
                        ).push(dk[g as int]));
                        let lhs = temps_view(temps@);
                        let rhs = tmpl_list(
                            whites,
                            blacks,
                            tsym,
                            fa_g,
                            fb_g,
                            fc_g,
                            msgs,
                            keys,
                            dk.take(g + 1),
                        );
                        let lhs0 = temps_view(temps_before);
                        let rhs0 = tmpl_list(
                            whites,
                            blacks,
                            tsym,
                            fa_g,
                            fb_g,
                            fc_g,
                            msgs,
                            keys,
                            dk.take(g as int),
                        );
                        assert(lhs.len() == rhs.len());
                        assert forall|ii: int| 0 <= ii < lhs.len() implies lhs[ii] == rhs[ii] by {
                            if ii < lhs.len() - 1 {
                                assert(temps@[ii] == temps_before[ii]);
                                assert(lhs[ii] == lhs0[ii]);
                                assert(rhs[ii] == rhs0[ii]) by {
                                    assert(nonempty_keys(dk.take(g + 1))[ii] == nonempty_keys(
                                        dk.take(g as int),
                                    )[ii]);
                                }
                            } else {
                                assert(lhs[ii] =~= tvv);
                                assert(rhs[ii] == cluster_templates(
                                    whites,
                                    blacks,
                                    tsym,
                                    fa_g,
                                    fb_g,
                                    fc_g,
                                    msgs,
                                    keys,
                                    dk[g as int],
                                ));
                            }
                        }
                        assert(lhs =~= rhs);
                    }
                }
                if wm {
                    let mmasks = parameter_masks(&members, &tok_b, &shared);
                    let ghost masks_at_entry = masks@;
                    let mut p: usize = 0;
                    while p < idxs.len()
                        invariant
                            msgs == messages@.map_values(|m: String| m@),
                            n == messages@.len(),
                            keys.len() == n as int,
                            dk == dedup_keys(keys),
                            0 <= g < dk.len(),
                            forall|g1: int, g2: int|
                                0 <= g1 < g2 < dk.len() ==> #[trigger] dk[g1] != #[trigger] dk[g2],
                            idxs@ == indices_where(keys, dk[g as int]),
                            forall|q: int|
                                0 <= q < idxs@.len() ==> (#[trigger] idxs@[q]) < n
                                    && keys[idxs@[q] as int] == dk[g as int],
                            mviews == member_views(msgs, idxs@),
                            mmasks@.len() == idxs@.len(),
                            forall|q: int|
                                0 <= q < mmasks@.len() ==> (#[trigger] mmasks@[q])@ == mask_of(
                                    whites,
                                    blacks,
                                    tsym,
                                    cluster_shared(
                                        whites,
                                        blacks,
                                        tsym,
                                        fa_g,
                                        fb_g,
                                        fc_g,
                                        msgs,
                                        keys,
                                        dk[g as int],
                                    ),
                                    mviews[q],
                                ),
                            forall|q: int|
                                0 <= q < mmasks@.len() ==> (#[trigger] mmasks@[q])@.len()
                                    == byte_len(mviews[q]) && (forall|pp: int|
                                    0 <= pp < mmasks@[q]@.len() ==> (#[trigger] mmasks@[q]@[pp])
                                        == '0' || mmasks@[q]@[pp] == '1'),
                            0 <= p <= idxs@.len(),
                            masks@.len() == n,
                            forall|i: int|
                                0 <= i < n ==> (#[trigger] masks@[i])@ == (
                                if exists|q: int| 0 <= q < p && (#[trigger] idxs@[q]) == i {
                                    mask_of(
                                        whites,
                                        blacks,
                                        tsym,
                                        cluster_shared(
                                            whites,
                                            blacks,
                                            tsym,
                                            fa_g,
                                            fb_g,
                                            fc_g,
                                            msgs,
                                            keys,
                                            dk[g as int],
                                        ),
                                        msgs[i],
                                    )
                                } else {
                                    mask_upto(
                                        whites,
                                        blacks,
                                        tsym,
                                        fa_g,
                                        fb_g,
                                        fc_g,
                                        msgs,
                                        keys,
                                        i,
                                        g as int,
                                    )
                                }),
                            forall|i: int|
                                0 <= i < n ==> (#[trigger] masks@[i])@.len() == byte_len(msgs[i])
                                    && (forall|pp: int|
                                    0 <= pp < masks@[i]@.len() ==> (#[trigger] masks@[i]@[pp])
                                        == '0' || masks@[i]@[pp] == '1'),
                        decreases idxs@.len() - p,
                    {
                        let idx = idxs[p];
                        let mv = mmasks[p].clone();
                        let ghost before = masks@;
                        masks[idx] = mv;
                        proof {
                            assert(mviews[p as int] == msgs[idx as int]);
                            assert forall|i: int| 0 <= i < n implies (#[trigger] masks@[i])@ == (
                            if exists|q: int| 0 <= q < p + 1 && (#[trigger] idxs@[q]) == i {
                                mask_of(
                                    whites,
                                    blacks,
                                    tsym,
                                    cluster_shared(
                                        whites,
                                        blacks,
                                        tsym,
                                        fa_g,
                                        fb_g,
                                        fc_g,
                                        msgs,
                                        keys,
                                        dk[g as int],
                                    ),
                                    msgs[i],
                                )
                            } else {
                                mask_upto(
                                    whites,
                                    blacks,
                                    tsym,
                                    fa_g,
                                    fb_g,
                                    fc_g,
                                    msgs,
                                    keys,
                                    i,
                                    g as int,
                                )
                            }) by {
                                if i == idx as int {
                                    assert(exists|q: int|
                                        0 <= q < p + 1 && (#[trigger] idxs@[q]) == i) by {
                                        assert(idxs@[p as int] == i);
                                    }
                                } else {
                                    assert(masks@[i] == before[i]);
                                    if exists|q: int| 0 <= q < p + 1 && (#[trigger] idxs@[q]) == i {
                                        let q = choose|q: int|
                                            0 <= q < p + 1 && (#[trigger] idxs@[q]) == i;
                                        assert(q < p);
                                        assert(exists|q2: int|
                                            0 <= q2 < p && (#[trigger] idxs@[q2]) == i);
                                    }
                                }
                            }
                        }
                        p = p + 1;
                    }
                    proof {
                        assert forall|i: int| 0 <= i < n implies (#[trigger] masks@[i])@
                            == mask_upto(
                            whites,
                            blacks,
                            tsym,
                            fa_g,
                            fb_g,
                            fc_g,
                            msgs,
                            keys,
                            i,
                            g + 1,
                        ) by {
                            if keys[i].is_empty() {
                                if exists|q: int|
                                    0 <= q < idxs@.len() && (#[trigger] idxs@[q]) == i {
                                    let q = choose|q: int|
                                        0 <= q < idxs@.len() && (#[trigger] idxs@[q]) == i;
                                    assert(keys[i] == dk[g as int]);
                                    assert(false);
                                }
                            } else if key_index(dk, keys[i]) == g {
                                lemma_key_in_dedup(keys, i);
                                lemma_key_index(dk, keys[i]);
                                assert(keys[i] == dk[g as int]);
                                assert(idxs@.contains(i as usize));
                                let q = choose|q: int|
                                    0 <= q < idxs@.len() && idxs@[q] == i as usize;
                                assert(exists|q2: int|
                                    0 <= q2 < idxs@.len() && (#[trigger] idxs@[q2]) == i);
                            } else {
                                if exists|q: int|
                                    0 <= q < idxs@.len() && (#[trigger] idxs@[q]) == i {
                                    let q = choose|q: int|
                                        0 <= q < idxs@.len() && (#[trigger] idxs@[q]) == i;
                                    assert(keys[i] == dk[g as int]);
                                    lemma_key_index_at(dk, g as int);
                                    assert(false);
                                }
                            }
                        }
                    }
                }
                let mut p2: usize = 0;
                while p2 < idxs.len()
                    invariant
                        n == messages@.len(),
                        keys.len() == n as int,
                        dk == dedup_keys(keys),
                        0 <= g < dk.len(),
                        forall|g1: int, g2: int|
                            0 <= g1 < g2 < dk.len() ==> #[trigger] dk[g1] != #[trigger] dk[g2],
                        !dk[g as int].is_empty(),
                        cid == count_nonempty(dk, g as int),
                        idxs@ == indices_where(keys, dk[g as int]),
                        forall|q: int|
                            0 <= q < idxs@.len() ==> (#[trigger] idxs@[q]) < n
                                && keys[idxs@[q] as int] == dk[g as int],
                        0 <= p2 <= idxs@.len(),
                        clus@.len() == n,
                        forall|i: int|
                            0 <= i < n ==> #[trigger] clus@[i] == (if exists|q: int|
                                0 <= q < p2 && (#[trigger] idxs@[q]) == i {
                                Some(cid)
                            } else {
                                cluster_upto(keys, i, g as int)
                            }),
                    decreases idxs@.len() - p2,
                {
                    let idx = idxs[p2];
                    let ghost before = clus@;
                    clus[idx] = Some(cid);
                    proof {
                        assert forall|i: int| 0 <= i < n implies #[trigger] clus@[i] == (
                        if exists|q: int| 0 <= q < p2 + 1 && (#[trigger] idxs@[q]) == i {
                            Some(cid)
                        } else {
                            cluster_upto(keys, i, g as int)
                        }) by {
                            if i == idx as int {
                                assert(exists|q: int|
                                    0 <= q < p2 + 1 && (#[trigger] idxs@[q]) == i) by {
                                    assert(idxs@[p2 as int] == i);
                                }
                            } else {
                                assert(clus@[i] == before[i]);
                                if exists|q: int| 0 <= q < p2 + 1 && (#[trigger] idxs@[q]) == i {
                                    let q = choose|q: int|
                                        0 <= q < p2 + 1 && (#[trigger] idxs@[q]) == i;
                                    assert(q < p2);
                                    assert(exists|q2: int|
                                        0 <= q2 < p2 && (#[trigger] idxs@[q2]) == i);
                                }
                            }
                        }
                    }
                    p2 = p2 + 1;
                }
                proof {
                    lemma_count_nonempty_bound(dk, g as int);
                }
                cid = cid + 1;
                proof {
                    assert(cid == count_nonempty(dk, g + 1));
                    assert forall|i: int| 0 <= i < n implies #[trigger] clus@[i] == cluster_upto(
                        keys,
                        i,
                        g + 1,
                    ) by {
                        if keys[i].is_empty() {
                            if exists|q: int| 0 <= q < idxs@.len() && (#[trigger] idxs@[q]) == i {
                                let q = choose|q: int|
                                    0 <= q < idxs@.len() && (#[trigger] idxs@[q]) == i;
                                assert(keys[i] == dk[g as int]);
                                assert(false);
                            }
                        } else if key_index(dk, keys[i]) == g {
                            lemma_key_in_dedup(keys, i);
                            lemma_key_index(dk, keys[i]);
                            assert(keys[i] == dk[g as int]);
                            assert(idxs@.contains(i as usize));
                            let q = choose|q: int| 0 <= q < idxs@.len() && idxs@[q] == i as usize;
                            assert(exists|q2: int|
                                0 <= q2 < idxs@.len() && (#[trigger] idxs@[q2]) == i);
                        } else {
                            if exists|q: int| 0 <= q < idxs@.len() && (#[trigger] idxs@[q]) == i {
                                let q = choose|q: int|
                                    0 <= q < idxs@.len() && (#[trigger] idxs@[q]) == i;
                                assert(keys[i] == dk[g as int]);
                                lemma_key_index_at(dk, g as int);
                                assert(false);
                            }
                        }
                    }
                }
            } else {
                proof {
                    assert(nonempty_keys(dk.take(g + 1)) == nonempty_keys(dk.take(g as int)));
                    assert(count_nonempty(dk, g + 1) == count_nonempty(dk, g as int));
                    assert forall|i: int| 0 <= i < n implies #[trigger] clus@[i] == cluster_upto(
                        keys,
                        i,
                        g + 1,
                    ) by {
                        if !keys[i].is_empty() && key_index(dk, keys[i]) == g {
                            lemma_key_in_dedup(keys, i);
                            lemma_key_index(dk, keys[i]);
                            assert(keys[i] == dk[g as int]);
                            assert(false);
                        }
                    }
                    if wm {
                        assert forall|i: int| 0 <= i < n implies (#[trigger] masks@[i])@
                            == mask_upto(
                            whites,
                            blacks,
                            tsym,
                            fa_g,
                            fb_g,
                            fc_g,
                            msgs,
                            keys,
                            i,
                            g + 1,
                        ) by {
                            if !keys[i].is_empty() && key_index(dk, keys[i]) == g {
                                lemma_key_in_dedup(keys, i);
                                lemma_key_index(dk, keys[i]);
                                assert(keys[i] == dk[g as int]);
                                assert(false);
                            }
                        }
                    }
                }
            }
            g = g + 1;
        }
        proof {
            assert(dk.take(dk.len() as int) =~= dk);
            assert forall|i: int| 0 <= i < n implies #[trigger] clus@[i] == clusters_spec(
                keys,
            )[i] by {
                if !keys[i].is_empty() {
                    lemma_key_in_dedup(keys, i);
                    lemma_key_index(dk, keys[i]);
                }
            }
            assert(clus@ =~= clusters_spec(keys));
            if wm {
                assert forall|i: int| 0 <= i < n implies (#[trigger] masks@[i])@ == masks_spec(
                    whites,
                    blacks,
                    tsym,
                    fa_g,
                    fb_g,
                    fc_g,
                    msgs,
                    keys,
                )[i] by {
                    if !keys[i].is_empty() {
                        lemma_key_in_dedup(keys, i);
                        lemma_key_index(dk, keys[i]);
                    }
                }
                assert(masks@.map_values(|s: String| s@) =~= masks_spec(
                    whites,
                    blacks,
                    tsym,
                    fa_g,
                    fb_g,
                    fc_g,
                    msgs,
                    keys,
                ));
            } else {
                assert(masks@.map_values(|s: String| s@) =~= Seq::<Seq<char>>::empty());
            }
            if !wt {
                assert(temps_view(temps@) =~= Seq::<Seq<Seq<char>>>::empty());
            }
            assert(msgs == corpus_views(messages));
            assert(rec.matches_counts(self.cfg_spec(), corpus_views(messages)));
            assert(keys == anchor_keys_spec(
                self.whites_v(),
                self.blacks_v(),
                self.symbols_v(),
                rec,
                self.threshold_num_v() as int,
                self.threshold_den_v() as int,
                corpus_views(messages),
            ));
            if wt {
                assert(temps_view(temps@) == templates_spec(
                    whites,
                    blacks,
                    tsym,
                    fa_g,
                    fb_g,
                    fc_g,
                    msgs,
                    keys,
                ));
            }
        }
        (clus, temps, masks)
    }
}

} // verus!
