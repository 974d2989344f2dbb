//! The interdependency graph of one message: one node per candidate token,
//! an edge from `u` to `v` when the dependency of `u`'s text on `v`'s text
//! exceeds the threshold, and the anchor choice: the tokens of the largest
//! strongly connected component.

use vstd::prelude::*;
use crate::record::TokenRecord;
use crate::token::{Token, TokenV, views_of};

verus! {

/// Whether the graph has an edge from text `a` to text `b` under threshold
/// `tn / td`: the two texts differ, their dependency is defined, and it
/// strictly exceeds the threshold.
pub open spec fn edge_spec(rec: TokenRecord, tn: int, td: int, a: Seq<char>, b: Seq<char>) -> bool {
    &&& a != b
    &&& match (rec.co_spec(a, b), rec.occ_spec(a)) {
        (Some(p), Some(s)) => p * td > tn * s,
        _ => false,
    }
}

/// Raising the threshold never adds an edge.
pub proof fn lemma_edge_antitone(
    rec: TokenRecord,
    tn1: int,
    td1: int,
    tn2: int,
    td2: int,
    a: Seq<char>,
    b: Seq<char>,
)
    requires
        0 <= tn1,
        0 < td1,
        0 <= tn2,
        0 < td2,
        tn1 * td2 <= tn2 * td1,
        edge_spec(rec, tn2, td2, a, b),
    ensures
        edge_spec(rec, tn1, td1, a, b),
{
    let p = rec.co_spec(a, b)->0 as int;
    let s = rec.occ_spec(a)->0 as int;
    assert(p * td2 > tn2 * s);
    assert(p * td1 > tn1 * s) by (nonlinear_arith)
        requires
            p * td2 > tn2 * s,
            tn1 * td2 <= tn2 * td1,
            0 <= tn1,
            0 < td1,
            0 <= tn2,
            0 < td2,
            0 <= p,
            0 <= s,
    {
    }
}

/// The edge list the pairwise walk of the candidates produces, standing at
/// positions `(i, j)` with `i < j`: for each unordered pair, first the edge
/// `i -> j` if it holds, then `j -> i` if it holds.
pub open spec fn edges_from(
    rec: TokenRecord,
    tn: int,
    td: int,
    cands: Seq<TokenV>,
    i: int,
    j: int,
) -> Seq<(usize, usize)>
    decreases cands.len() - i, cands.len() - j,
{
    if !(0 <= i < cands.len()) {
        Seq::empty()
    } else if j <= i || j >= cands.len() {
        edges_from(rec, tn, td, cands, i + 1, i + 2)
    } else {
        (if edge_spec(rec, tn, td, cands[i].text, cands[j].text) {
            seq![(i as usize, j as usize)]
        } else {
            Seq::empty()
        }) + (if edge_spec(rec, tn, td, cands[j].text, cands[i].text) {
            seq![(j as usize, i as usize)]
        } else {
            Seq::empty()
        }) + edges_from(rec, tn, td, cands, i, j + 1)
    }
}

/// The edge list of a candidate list under threshold `tn / td`.
pub open spec fn edges_spec(rec: TokenRecord, tn: int, td: int, cands: Seq<TokenV>) -> Seq<
    (usize, usize),
> {
    edges_from(rec, tn, td, cands, 0, 1)
}

/// Every emitted edge joins two distinct candidate positions.
pub proof fn lemma_edges_from_bounds(
    rec: TokenRecord,
    tn: int,
    td: int,
    cands: Seq<TokenV>,
    i: int,
    j: int,
)
    requires
        cands.len() <= usize::MAX,
    ensures
        forall|k: int|
            0 <= k < edges_from(rec, tn, td, cands, i, j).len() ==> (#[trigger] edges_from(
                rec,
                tn,
                td,
                cands,
                i,
                j,
            )[k]).0 < cands.len() && edges_from(rec, tn, td, cands, i, j)[k].1 < cands.len(),
    decreases cands.len() - i, cands.len() - j,
{
    if !(0 <= i < cands.len()) {
    } else if j <= i || j >= cands.len() {
        lemma_edges_from_bounds(rec, tn, td, cands, i + 1, i + 2);
        let e = edges_from(rec, tn, td, cands, i, j);
        let e2 = edges_from(rec, tn, td, cands, i + 1, i + 2);
        assert forall|k: int| 0 <= k < e.len() implies (#[trigger] e[k]).0 < cands.len() && e[k].1
            < cands.len() by {
            assert(e[k] == e2[k]);
        }
    } else {
        lemma_edges_from_bounds(rec, tn, td, cands, i, j + 1);
        let e = edges_from(rec, tn, td, cands, i, j);
        let e1: Seq<(usize, usize)> = if edge_spec(rec, tn, td, cands[i].text, cands[j].text) {
            seq![(i as usize, j as usize)]
        } else {
            Seq::empty()
        };
        let e2: Seq<(usize, usize)> = if edge_spec(rec, tn, td, cands[j].text, cands[i].text) {
            seq![(j as usize, i as usize)]
        } else {
            Seq::empty()
        };
        let rest = edges_from(rec, tn, td, cands, i, j + 1);
        assert(e == e1 + e2 + rest);
        assert forall|k: int| 0 <= k < e.len() implies (#[trigger] e[k]).0 < cands.len() && e[k].1
            < cands.len() by {
            if k < e1.len() {
                assert(e[k] == e1[0]);
            } else if k < e1.len() + e2.len() {
                assert(e[k] == e2[0]);
            } else {
                assert(e[k] == rest[k - e1.len() - e2.len()]);
            }
        }
    }
}

/// Builds the edge list of the interdependency graph over the candidate
/// tokens, querying the record for each ordered pair of distinct texts.
pub fn build_graph(cands: &Vec<Token>, rec: &TokenRecord, tn: u64, td: u64) -> (r: Vec<
    (usize, usize),
>)
    requires
        td > 0,
    ensures
        r@ == edges_spec(*rec, tn as int, td as int, views_of(cands@)),
        forall|k: int|
            0 <= k < r@.len() ==> (#[trigger] r@[k]).0 < cands@.len() && r@[k].1 < cands@.len(),
{
    let ghost cv = views_of(cands@);
    let ghost whole = edges_from(*rec, tn as int, td as int, cv, 0, 1);
    let n = cands.len();
    let mut out: Vec<(usize, usize)> = Vec::new();
    let mut i: usize = 0;
    proof {
        lemma_edges_from_bounds(*rec, tn as int, td as int, cv, 0, 1);
        if n == 0 {
            assert(whole =~= Seq::<(usize, usize)>::empty());
        }
        assert(out@ + edges_from(*rec, tn as int, td as int, cv, 0, 1) =~= whole);
    }
    while i < n
        invariant
            cv == views_of(cands@),
            n == cands@.len(),
            td > 0,
            whole == edges_from(*rec, tn as int, td as int, cv, 0, 1),
            0 <= i <= n,
            out@ + edges_from(*rec, tn as int, td as int, cv, i as int, i + 1) == whole,
            forall|k: int|
                0 <= k < out@.len() ==> (#[trigger] out@[k]).0 < cands@.len() && out@[k].1
                    < cands@.len(),
        decreases n - i,
    {
        let mut j: usize = i + 1;
        while j < n
            invariant
                cv == views_of(cands@),
                n == cands@.len(),
                td > 0,
                whole == edges_from(*rec, tn as int, td as int, cv, 0, 1),
                0 <= i < n,
                i < j <= n,
                out@ + edges_from(*rec, tn as int, td as int, cv, i as int, j as int) == whole,
                forall|k: int|
                    0 <= k < out@.len() ==> (#[trigger] out@[k]).0 < cands@.len() && out@[k].1
                        < cands@.len(),
            decreases n - j,
        {
            let ghost before = out@;
            if !cands[i].text_eq(&cands[j]) {
                let fwd = dependency_exceeds(rec, &cands[i], &cands[j], tn, td);
                if fwd {
                    out.push((i, j));
                }
                let bwd = dependency_exceeds(rec, &cands[j], &cands[i], tn, td);
                if bwd {
                    out.push((j, i));
                }
                proof {
                    let e1: Seq<(usize, usize)> = if edge_spec(
                        *rec,
                        tn as int,
                        td as int,
                        cv[i as int].text,
                        cv[j as int].text,
                    ) {
                        seq![(i, j)]
                    } else {
                        Seq::empty()
                    };
                    let e2: Seq<(usize, usize)> = if edge_spec(
                        *rec,
                        tn as int,
                        td as int,
                        cv[j as int].text,
                        cv[i as int].text,
                    ) {
                        seq![(j, i)]
                    } else {
                        Seq::empty()
                    };
                    assert(out@ =~= before + e1 + e2);
                    assert(edges_from(*rec, tn as int, td as int, cv, i as int, j as int) =~= e1
                        + e2 + edges_from(*rec, tn as int, td as int, cv, i as int, j + 1));
                    assert(out@ + edges_from(*rec, tn as int, td as int, cv, i as int, j + 1)
                        =~= whole);
                }
            } else {
                proof {
                    assert(cv[i as int].text == cv[j as int].text);
                    assert(!edge_spec(*rec, tn as int, td as int, cv[i as int].text,
                    cv[j as int].text));
                    assert(!edge_spec(*rec, tn as int, td as int, cv[j as int].text,
                    cv[i as int].text));
                    assert(edges_from(*rec, tn as int, td as int, cv, i as int, j as int)
                        =~= Seq::<(usize, usize)>::empty() + Seq::<(usize, usize)>::empty()
                        + edges_from(*rec, tn as int, td as int, cv, i as int, j + 1));
                    assert(out@ + edges_from(*rec, tn as int, td as int, cv, i as int, j + 1)
                        =~= whole);
                }
            }
            j = j + 1;
        }
        i = i + 1;
    }
    proof {
        assert(edges_from(*rec, tn as int, td as int, cv, n as int, n as int + 1)
            =~= Seq::<(usize, usize)>::empty());
        assert(out@ =~= whole);
    }
    out
}

/// Whether the dependency of `a`'s text on `b`'s text strictly exceeds
/// `tn / td`.
fn dependency_exceeds(rec: &TokenRecord, a: &Token, b: &Token, tn: u64, td: u64) -> (r: bool)
    requires
        td > 0,
        a@.text != b@.text,
    ensures
        r == edge_spec(*rec, tn as int, td as int, a@.text, b@.text),
{
    match rec.dependency(a.as_str(), b.as_str()) {
        Some(ratio) => {
            let lhs = ratio.num as u128;
            let rhs = ratio.den as u128;
            let tdw = td as u128;
            let tnw = tn as u128;
            proof {
                assert((lhs as int) * (tdw as int) <= u128::MAX) by (nonlinear_arith)
                    requires
                        0 <= lhs as int <= u64::MAX,
                        0 <= tdw as int <= u64::MAX,
                {
                }
                assert((tnw as int) * (rhs as int) <= u128::MAX) by (nonlinear_arith)
                    requires
                        0 <= tnw as int <= u64::MAX,
                        0 <= rhs as int <= u64::MAX,
                {
                }
            }
            lhs * tdw > tnw * rhs
        },
        None => false,
    }
}

/// The strongly connected components of the directed graph on `n` nodes with
/// the given edge list.
pub uninterp spec fn scc_of(n: int, edges: Seq<(usize, usize)>) -> Seq<Seq<usize>>;

/// What holds of any decomposition into strongly connected components: the
/// components are non-empty, hold only nodes of the graph, and together cover
/// every node.
/// Whether some component lists the node `v`.
pub open spec fn node_covered(comps: Seq<Seq<usize>>, v: int) -> bool {
    exists|c: int, k: int|
        0 <= c < comps.len() && 0 <= k < comps[c].len() && (#[trigger] comps[c][k]) == v
}

pub open spec fn scc_covering(comps: Seq<Seq<usize>>, n: int) -> bool {
    &&& forall|c: int| 0 <= c < comps.len() ==> (#[trigger] comps[c]).len() > 0
    &&& forall|c: int, k: int|
        0 <= c < comps.len() && 0 <= k < comps[c].len() ==> (#[trigger] comps[c][k]) < n
    &&& forall|v: int| 0 <= v < n ==> #[trigger] node_covered(comps, v)
}

/// Relies on petgraph's `DiGraph` and `kosaraju_scc`: the strongly connected
/// components of the directed graph on nodes `0..n` with the given edges, a
/// partition of the nodes in reverse topological order.
#[verifier::external_body]
fn scc_partition(n: usize, edges: &Vec<(usize, usize)>) -> (r: Vec<Vec<usize>>)
    requires
        forall|k: int|
            0 <= k < edges@.len() ==> (#[trigger] edges@[k]).0 < n && edges@[k].1 < n,
    ensures
        r.deep_view() == scc_of(n as int, edges@),
        scc_covering(r.deep_view(), n as int),
{
    let mut g = petgraph::graph::DiGraph::<(), (), usize>::with_capacity(n, edges.len());
    for _ in 0..n {
        g.add_node(());
    }
    for (a, b) in edges.iter() {
        g.add_edge(petgraph::graph::NodeIndex::new(*a), petgraph::graph::NodeIndex::new(*b), ());
    }
    petgraph::algo::kosaraju_scc(&g)
        .into_iter()
        .map(|comp| comp.into_iter().map(|v| v.index()).collect())
        .collect()
}

/// The position of the first component of greatest size, scanning from
/// position `i` with current best `best`.
pub open spec fn first_max_from(comps: Seq<Seq<usize>>, i: int, best: int) -> int
    decreases comps.len() - i,
{
    if !(0 <= i < comps.len()) {
        best
    } else if !(0 <= best < comps.len()) {
        first_max_from(comps, i + 1, best)
    } else if comps[i].len() > comps[best].len() {
        first_max_from(comps, i + 1, i)
    } else {
        first_max_from(comps, i + 1, best)
    }
}

/// The set of candidate tokens at the positions a component lists.
pub open spec fn comp_token_set(cands: Seq<TokenV>, comp: Seq<usize>) -> Set<TokenV> {
    Set::new(
        |t: TokenV|
            exists|k: int|
                0 <= k < comp.len() && (#[trigger] comp[k]) < cands.len() && cands[comp[k] as int]
                    == t,
    )
}

/// The tokens of the first largest strongly connected component of the
/// candidates' graph, as a set.
pub open spec fn largest_scc_tokens(cands: Seq<TokenV>, edges: Seq<(usize, usize)>) -> Set<
    TokenV,
> {
    let comps = scc_of(cands.len() as int, edges);
    if comps.len() == 0 {
        Set::empty()
    } else {
        comp_token_set(cands, comps[first_max_from(comps, 1, 0)])
    }
}

pub open spec fn tokens_distinct(ts: Seq<TokenV>) -> bool {
    forall|i: int, j: int| 0 <= i < j < ts.len() ==> #[trigger] ts[i] != #[trigger] ts[j]
}

/// The set of token values a token list holds.
pub open spec fn token_set(ts: Seq<TokenV>) -> Set<TokenV> {
    Set::new(|t: TokenV| ts.contains(t))
}

/// Whether the list holds a token equal (in tag and text) to `t`.
pub fn contains_token(v: &Vec<Token>, t: &Token) -> (r: bool)
    ensures
        r == views_of(v@).contains(t@),
{
    let mut i: usize = 0;
    while i < v.len()
        invariant
            0 <= i <= v@.len(),
            forall|k: int| 0 <= k < i ==> views_of(v@)[k] != t@,
        decreases v@.len() - i,
    {
        if v[i].same_as(t) {
            proof {
                assert(views_of(v@)[i as int] == t@);
            }
            return true;
        }
        i = i + 1;
    }
    proof {
        if views_of(v@).contains(t@) {
            let k = choose|k: int| 0 <= k < views_of(v@).len() && views_of(v@)[k] == t@;
            assert(false);
        }
    }
    false
}

/// The tokens of the first largest strongly connected component of the graph
/// over the candidates with the given edges, without repetition.
pub fn anchor_nodes(cands: &Vec<Token>, edges: &Vec<(usize, usize)>) -> (r: Vec<Token>)
    requires
        forall|k: int|
            0 <= k < edges@.len() ==> (#[trigger] edges@[k]).0 < cands@.len() && edges@[k].1
                < cands@.len(),
    ensures
        tokens_distinct(views_of(r@)),
        token_set(views_of(r@)) == largest_scc_tokens(views_of(cands@), edges@),
{
    let ghost cv = views_of(cands@);
    let comps = scc_partition(cands.len(), edges);
    let ghost sc = scc_of(cands@.len() as int, edges@);
    let mut out: Vec<Token> = Vec::new();
    if comps.len() == 0 {
        proof {
            assert(views_of(out@) =~= Seq::<TokenV>::empty());
            assert(token_set(views_of(out@)) =~= largest_scc_tokens(cv, edges@));
        }
        return out;
    }
    let mut best: usize = 0;
    let mut i: usize = 1;
    while i < comps.len()
        invariant
            comps.deep_view() == sc,
            comps@.len() == sc.len(),
            0 <= best < comps@.len(),
            1 <= i <= comps@.len(),
            first_max_from(sc, 1, 0) == first_max_from(sc, i as int, best as int),
        decreases comps@.len() - i,
    {
        proof {
            assert(comps@[i as int]@ == sc[i as int]);
            assert(comps@[best as int]@ == sc[best as int]);
        }
        if comps[i].len() > comps[best].len() {
            best = i;
        }
        i = i + 1;
    }
    let ghost chosen = sc[first_max_from(sc, 1, 0)];
    proof {
        assert(first_max_from(sc, sc.len() as int, best as int) == best as int);
        assert(comps@[best as int]@ == chosen);
    }
    let comp = &comps[best];
    let mut k: usize = 0;
    proof {
        assert(scc_covering(sc, cv.len() as int));
        assert(sc[best as int] == chosen);
        assert forall|t: TokenV| token_set(views_of(out@)).contains(t) == comp_token_set(
            cv,
            chosen.take(0),
        ).contains(t) by {
            assert(!views_of(out@).contains(t));
        }
        assert(token_set(views_of(out@)) =~= comp_token_set(cv, chosen.take(0)));
    }
    while k < comp.len()
        invariant
            comps.deep_view() == sc,
            0 <= best < comps@.len(),
            comps@[best as int]@ == chosen,
            chosen == sc[best as int],
            scc_covering(sc, cv.len() as int),
            cv == views_of(cands@),
            0 <= k <= chosen.len(),
            comp == &comps@[best as int],
            tokens_distinct(views_of(out@)),
            token_set(views_of(out@)) == comp_token_set(cv, chosen.take(k as int)),
        decreases chosen.len() - k,
    {
        let v = comp[k];
        proof {
            assert(chosen[k as int] == comp@[k as int]);
            assert(chosen[k as int] < cv.len());
        }
        let t = cands[v].duplicate();
        proof {
            assert(t@ == cv[v as int]);
        }
        let ghost before = out@;
        let present = contains_token(&out, &t);
        if !present {
            out.push(t);
            proof {
                assert(views_of(out@).drop_last() =~= views_of(before));
                assert(views_of(out@).last() == cv[v as int]);
                assert forall|p: int, q: int| 0 <= p < q < views_of(out@).len() implies #[trigger]
                views_of(out@)[p] != #[trigger] views_of(out@)[q] by {
                    if q < views_of(out@).len() - 1 {
                        assert(views_of(out@)[p] == views_of(before)[p]);
                        assert(views_of(out@)[q] == views_of(before)[q]);
                    } else {
                        assert(views_of(out@)[p] == views_of(before)[p]);
                        assert(views_of(before).contains(views_of(before)[p]));
                    }
                }
            }
        }
        proof {
            let taken = chosen.take(k + 1);
            assert forall|x: TokenV| token_set(views_of(out@)).contains(x) == comp_token_set(
                cv,
                taken,
            ).contains(x) by {
                if token_set(views_of(out@)).contains(x) {
                    if views_of(before).contains(x) {
                        assert(comp_token_set(cv, chosen.take(k as int)).contains(x));
                        let k0 = choose|k0: int|
                            0 <= k0 < k && (#[trigger] chosen.take(k as int)[k0]) < cv.len()
                                && cv[chosen.take(k as int)[k0] as int] == x;
                        assert(taken[k0] == chosen[k0]);
                        assert(comp_token_set(cv, taken).contains(x));
                    } else {
                        assert(!present) by {
                            if present {
                                assert(out@ == before);
                            }
                        }
                        let p = choose|p: int|
                            0 <= p < views_of(out@).len() && views_of(out@)[p] == x;
                        if p < views_of(out@).len() - 1 {
                            assert(views_of(before)[p] == views_of(out@).drop_last()[p]);
                            assert(views_of(before).contains(x));
                            assert(false);
                        }
                        assert(x == views_of(out@).last());
                        assert(x == cv[v as int]);
                        assert(taken[k as int] == chosen[k as int]);
                        assert(chosen[k as int] == v);
                        assert(comp_token_set(cv, taken).contains(x));
                    }
                }
                if comp_token_set(cv, taken).contains(x) {
                    let k0 = choose|k0: int|
                        0 <= k0 < taken.len() && (#[trigger] taken[k0]) < cv.len()
                            && cv[taken[k0] as int] == x;
                    if k0 < k {
                        assert(chosen.take(k as int)[k0] == taken[k0]);
                        assert(comp_token_set(cv, chosen.take(k as int)).contains(x));
                        assert(views_of(before).contains(x));
                        let p = choose|p: int|
                            0 <= p < views_of(before).len() && views_of(before)[p] == x;
                        assert(views_of(out@)[p] == x);
                        assert(views_of(out@).contains(x));
                    } else {
                        assert(k0 == k);
                        assert(taken[k0] == chosen[k as int]);
                        assert(chosen[k as int] == v);
                        assert(x == cv[v as int]);
                        if views_of(before).contains(x) {
                            let p = choose|p: int|
                                0 <= p < views_of(before).len() && views_of(before)[p] == x;
                            assert(views_of(out@)[p] == x);
                        } else {
                            assert(views_of(out@).last() == x);
                        }
                        assert(views_of(out@).contains(x));
                    }
                }
            }
            assert(token_set(views_of(out@)) =~= comp_token_set(cv, taken));
        }
        k = k + 1;
    }
    proof {
        assert(chosen.take(chosen.len() as int) =~= chosen);
        assert(token_set(views_of(out@)) =~= largest_scc_tokens(cv, edges@));
    }
    out
}

} // verus!
