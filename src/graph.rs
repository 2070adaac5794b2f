//! The word graph of a sentence and its best route, stated over a
//! dictionary's contents.
use vstd::prelude::*;
use crate::jieba::{Dict, freq_in};
use crate::log_weight::{log_weight, ONE};
use crate::text::{Span, tiles, lemma_tiles_concat, is_ascii_alnum, shift, lemma_tiles_shift};
use crate::hmm::{HmmModel, hmm_spans, lemma_hmm_spans_tiles};

verus! {

/// `s[i..j]` is a word of `d` with a positive frequency.
pub open spec fn is_word_edge(d: Dict, s: Seq<char>, i: int, j: int) -> bool {
    0 <= i < j <= s.len() && freq_in(d, s.subrange(i, j)) > 0
}

/// Some word of `d` starts at `i` in `s`.
pub open spec fn has_word_at(d: Dict, s: Seq<char>, i: int) -> bool {
    exists|j: int| is_word_edge(d, s, i, j)
}

/// The graph has an edge from `i` to `j`: `s[i..j]` is a word, or no word
/// starts at `i` and `j` is the next position.
pub open spec fn dag_edge(d: Dict, s: Seq<char>, i: int, j: int) -> bool {
    if has_word_at(d, s, i) {
        is_word_edge(d, s, i, j)
    } else {
        0 <= i < s.len() && j == i + 1
    }
}

/// `e` lists the ends of the edges out of `i`, each once, in increasing order.
pub open spec fn edge_list_ok(d: Dict, s: Seq<char>, i: int, e: Seq<usize>) -> bool {
    &&& forall|k: int| 0 <= k < e.len() ==> dag_edge(d, s, i, #[trigger] e[k] as int)
    &&& forall|k1: int, k2: int| 0 <= k1 < k2 < e.len() ==> #[trigger] e[k1] < #[trigger] e[k2]
    &&& forall|j: int| dag_edge(d, s, i, j) ==> exists|k: int| 0 <= k < e.len() && #[trigger] e[k] == j
}

/// The frequency an edge counts with: the word's, or 1 for a lone character
/// that is no word.
pub open spec fn edge_freq(d: Dict, s: Seq<char>, i: int, j: int) -> nat {
    let f = freq_in(d, s.subrange(i, j));
    if f > 0 {
        f
    } else {
        1
    }
}

/// The weight of the edge `i..j`: the log of its frequency over the total.
pub open spec fn weight(d: Dict, s: Seq<char>, total: nat, i: int, j: int) -> int {
    log_weight(edge_freq(d, s, i, j)) - log_weight(total)
}

/// A bound on the weight of any edge.
pub const W_BOUND: i128 = 0x40_0000_0000;

/// `rt` is the best route through the graph of `s`: position `n` ends it, and
/// from each position `i` it takes the edge `i..rt[i].1` whose weight plus
/// the score of its end is the largest, `rt[i].0`; among equal scores, the
/// edge that ends last.
pub open spec fn route_ok(d: Dict, s: Seq<char>, total: nat, rt: Seq<(i128, usize)>) -> bool {
    let n = s.len() as int;
    &&& rt.len() == n + 1
    &&& rt[n] == (0i128, n as usize)
    &&& forall|i: int| 0 <= i < n ==> route_step_ok(d, s, total, rt, i)
}

/// The route's choice at `i` is the best one.
pub open spec fn route_step_ok(d: Dict, s: Seq<char>, total: nat, rt: Seq<(i128, usize)>, i: int) -> bool {
    let next = rt[i].1 as int;
    &&& dag_edge(d, s, i, next)
    &&& rt[i].0 == weight(d, s, total, i, next) + rt[next].0
    &&& forall|j: int| #[trigger] dag_edge(d, s, i, j) ==> weight(d, s, total, i, j) + rt[j].0 <= rt[i].0
    &&& forall|j: int| #[trigger] dag_edge(d, s, i, j) && j > next ==> weight(d, s, total, i, j) + rt[j].0 < rt[i].0
}

pub proof fn lemma_weight_bound(d: Dict, s: Seq<char>, total: nat, i: int, j: int)
    requires
        0 <= log_weight(edge_freq(d, s, i, j)) < 64 * ONE,
        0 <= log_weight(total) < 64 * ONE,
    ensures
        -W_BOUND < weight(d, s, total, i, j) < W_BOUND,
{
}

/// Two routes that are both best are the same route.
pub proof fn lemma_route_unique(d: Dict, s: Seq<char>, total: nat, r1: Seq<(i128, usize)>, r2: Seq<(i128, usize)>)
    requires
        route_ok(d, s, total, r1),
        route_ok(d, s, total, r2),
    ensures
        r1 == r2,
{
    let n = s.len() as int;
    assert forall|i: int| 0 <= i <= n implies #[trigger] r1[i] == r2[i] by {
        lemma_route_unique_from(d, s, total, r1, r2, i);
    }
    assert(r1 =~= r2);
}

proof fn lemma_route_unique_from(d: Dict, s: Seq<char>, total: nat, r1: Seq<(i128, usize)>, r2: Seq<(i128, usize)>, i: int)
    requires
        route_ok(d, s, total, r1),
        route_ok(d, s, total, r2),
        0 <= i <= s.len(),
    ensures
        forall|j: int| i <= j <= s.len() ==> #[trigger] r1[j] == r2[j],
    decreases s.len() - i,
{
    let n = s.len() as int;
    if i < n {
        lemma_route_unique_from(d, s, total, r1, r2, i + 1);
        assert(route_step_ok(d, s, total, r1, i));
        assert(route_step_ok(d, s, total, r2, i));
        let a = r1[i].1 as int;
        let b = r2[i].1 as int;
        assert(dag_edge(d, s, i, a) && dag_edge(d, s, i, b));
        lemma_dag_edge_forward(d, s, i, a);
        lemma_dag_edge_forward(d, s, i, b);
        assert(r1[a] == r2[a]);
        assert(r1[b] == r2[b]);
        assert(weight(d, s, total, i, b) + r1[b].0 <= r1[i].0);
        assert(weight(d, s, total, i, a) + r2[a].0 <= r2[i].0);
        if a < b {
            assert(weight(d, s, total, i, b) + r1[b].0 < r1[i].0);
        } else if b < a {
            assert(weight(d, s, total, i, a) + r2[a].0 < r2[i].0);
        }
        assert forall|j: int| i <= j <= s.len() implies #[trigger] r1[j] == r2[j] by {
            if j == i {
                assert(a == b);
            }
        }
    }
}

/// An edge goes forward and stays inside the sentence.
pub proof fn lemma_dag_edge_forward(d: Dict, s: Seq<char>, i: int, j: int)
    requires
        dag_edge(d, s, i, j),
    ensures
        0 <= i < j <= s.len(),
{
}

/// The best route of `s`: the one route that `route_ok` admits.
pub open spec fn best_route(d: Dict, s: Seq<char>, total: nat) -> Seq<(i128, usize)> {
    choose|rt: Seq<(i128, usize)>| route_ok(d, s, total, rt)
}

/// The next positions along the best route.
pub open spec fn route_next(d: Dict, s: Seq<char>, total: nat) -> Seq<usize> {
    best_route(d, s, total).map_values(|p: (i128, usize)| p.1)
}

/// The words of the walk along `next` from position `x`, where a run of
/// one-character steps over ASCII letters and digits that began at `left`
/// is still open: each step gives a word, but such runs make one word.
pub open spec fn walk_no_hmm(s: Seq<char>, next: Seq<usize>, x: int, left: Option<int>) -> Seq<Span>
    decreases s.len() - x,
{
    if x < 0 || x >= s.len() || x >= next.len() || next[x] <= x || next[x] > s.len() {
        match left {
            Some(l) => seq![(l as usize, s.len() as usize)],
            None => seq![],
        }
    } else {
        let y = next[x] as int;
        if y == x + 1 && is_ascii_alnum(s[x]) {
            walk_no_hmm(s, next, y, if left is Some { left } else { Some(x) })
        } else {
            let flushed = match left {
                Some(l) => seq![(l as usize, x as usize)],
                None => seq![],
            };
            flushed + seq![(x as usize, y as usize)] + walk_no_hmm(s, next, y, None)
        }
    }
}

/// `next` steps forward from each position and stays inside `s`.
pub open spec fn steps_forward(s: Seq<char>, next: Seq<usize>) -> bool {
    &&& next.len() >= s.len()
    &&& forall|i: int| 0 <= i < s.len() ==> i < #[trigger] next[i] <= s.len()
}

/// The walk's words tile what is left of the sentence.
pub proof fn lemma_walk_no_hmm_tiles(s: Seq<char>, next: Seq<usize>, x: int, left: Option<int>)
    requires
        steps_forward(s, next),
        0 <= x <= s.len() <= usize::MAX,
        left matches Some(l) ==> 0 <= l < x,
    ensures
        tiles(walk_no_hmm(s, next, x, left), if left is Some { left->0 } else { x }, s.len() as int),
    decreases s.len() - x,
{
    if x < s.len() {
        let y = next[x] as int;
        if y == x + 1 && is_ascii_alnum(s[x]) {
            lemma_walk_no_hmm_tiles(s, next, y, if left is Some { left } else { Some(x) });
        } else {
            lemma_walk_no_hmm_tiles(s, next, y, None);
            let rest = walk_no_hmm(s, next, y, None);
            let mid = seq![(x as usize, y as usize)];
            assert(tiles(mid, x, y));
            lemma_tiles_concat(mid, rest, x, y, s.len() as int);
            match left {
                Some(l) => {
                    let fl = seq![(l as usize, x as usize)];
                    assert(tiles(fl, l, x));
                    lemma_tiles_concat(fl, mid + rest, l, x, s.len() as int);
                    assert(fl + mid + rest =~= fl + (mid + rest));
                },
                None => {
                    assert(seq![] + mid + rest =~= mid + rest);
                },
            }
        }
    } else {
        match left {
            Some(l) => {
                assert(tiles(seq![(l as usize, s.len() as usize)], l, s.len() as int));
            },
            None => {},
        }
    }
}

/// Each character of `l..x` as a word of its own.
pub open spec fn singles(l: int, x: int) -> Seq<Span> {
    Seq::new((x - l) as nat, |k: int| ((l + k) as usize, (l + k + 1) as usize))
}

/// The words of a run `s[l..x]` of one-character steps: one character is a
/// word; a run that is no word of `d` goes to the model; a run that is a
/// word is cut into characters.
pub open spec fn flush_run(d: Dict, m: HmmModel, s: Seq<char>, l: int, x: int) -> Seq<Span> {
    if x - l == 1 {
        seq![(l as usize, x as usize)]
    } else if freq_in(d, s.subrange(l, x)) == 0 {
        shift(hmm_spans(m, s.subrange(l, x)), l)
    } else {
        singles(l, x)
    }
}

/// The words of the walk along `next` from `x` when the model is used: the
/// one-character steps since `left` are gathered and cut by `flush_run`.
pub open spec fn walk_hmm(d: Dict, m: HmmModel, s: Seq<char>, next: Seq<usize>, x: int, left: Option<int>) -> Seq<Span>
    decreases s.len() - x,
{
    if x < 0 || x >= s.len() || x >= next.len() || next[x] <= x || next[x] > s.len() {
        match left {
            Some(l) => flush_run(d, m, s, l, s.len() as int),
            None => seq![],
        }
    } else {
        let y = next[x] as int;
        if y == x + 1 {
            walk_hmm(d, m, s, next, y, if left is Some { left } else { Some(x) })
        } else {
            let flushed = match left {
                Some(l) => flush_run(d, m, s, l, x),
                None => seq![],
            };
            flushed + seq![(x as usize, y as usize)] + walk_hmm(d, m, s, next, y, None)
        }
    }
}

pub proof fn lemma_singles_tiles(l: int, x: int)
    requires
        0 <= l < x <= usize::MAX,
    ensures
        tiles(singles(l, x), l, x),
{
    let sp = singles(l, x);
    assert(sp[0].0 == l);
    assert(sp.last() == sp[x - l - 1]);
}

pub proof fn lemma_flush_run_tiles(d: Dict, m: HmmModel, s: Seq<char>, l: int, x: int)
    requires
        0 <= l < x <= s.len() <= usize::MAX,
    ensures
        tiles(flush_run(d, m, s, l, x), l, x),
{
    if x - l == 1 {
        assert(tiles(seq![(l as usize, x as usize)], l, x));
    } else if freq_in(d, s.subrange(l, x)) == 0 {
        lemma_hmm_spans_tiles(m, s.subrange(l, x));
        lemma_tiles_shift(hmm_spans(m, s.subrange(l, x)), 0, x - l, l);
    } else {
        lemma_singles_tiles(l, x);
    }
}

pub proof fn lemma_walk_hmm_tiles(d: Dict, m: HmmModel, s: Seq<char>, next: Seq<usize>, x: int, left: Option<int>)
    requires
        steps_forward(s, next),
        0 <= x <= s.len() <= usize::MAX,
        left matches Some(l) ==> 0 <= l < x,
    ensures
        tiles(walk_hmm(d, m, s, next, x, left), if left is Some { left->0 } else { x }, s.len() as int),
    decreases s.len() - x,
{
    if x < s.len() {
        let y = next[x] as int;
        if y == x + 1 {
            lemma_walk_hmm_tiles(d, m, s, next, y, if left is Some { left } else { Some(x) });
        } else {
            lemma_walk_hmm_tiles(d, m, s, next, y, None);
            let rest = walk_hmm(d, m, s, next, y, None);
            let mid = seq![(x as usize, y as usize)];
            assert(tiles(mid, x, y));
            lemma_tiles_concat(mid, rest, x, y, s.len() as int);
            match left {
                Some(l) => {
                    let fl = flush_run(d, m, s, l, x);
                    lemma_flush_run_tiles(d, m, s, l, x);
                    lemma_tiles_concat(fl, mid + rest, l, x, s.len() as int);
                    assert(fl + mid + rest =~= fl + (mid + rest));
                },
                None => {
                    assert(seq![] + mid + rest =~= mid + rest);
                },
            }
        }
    } else {
        match left {
            Some(l) => {
                lemma_flush_run_tiles(d, m, s, l, s.len() as int);
            },
            None => {},
        }
    }
}

/// The edge list of `i`: the one list that `edge_list_ok` admits.
pub open spec fn dag_edges(d: Dict, s: Seq<char>, i: int) -> Seq<usize> {
    choose|e: Seq<usize>| edge_list_ok(d, s, i, e)
}

/// `j` stands in the list `e`.
pub open spec fn lists(e: Seq<usize>, j: int) -> bool {
    exists|k: int| 0 <= k < e.len() && e[k] == j
}

/// Two increasing lists of the same ends are the same list.
pub proof fn lemma_edge_list_unique(d: Dict, s: Seq<char>, i: int, e1: Seq<usize>, e2: Seq<usize>)
    requires
        edge_list_ok(d, s, i, e1),
        edge_list_ok(d, s, i, e2),
    ensures
        e1 == e2,
{
    assert forall|k: int| 0 <= k < e1.len() implies lists(e2, #[trigger] e1[k] as int) by {
        assert(dag_edge(d, s, i, e1[k] as int));
    }
    assert forall|k: int| 0 <= k < e2.len() implies lists(e1, #[trigger] e2[k] as int) by {
        assert(dag_edge(d, s, i, e2[k] as int));
    }
    lemma_sorted_same(e1, e2);
}

proof fn lemma_sorted_head(e1: Seq<usize>, e2: Seq<usize>)
    requires
        e1.len() > 0,
        e2.len() > 0,
        forall|k1: int, k2: int| 0 <= k1 < k2 < e1.len() ==> #[trigger] e1[k1] < #[trigger] e1[k2],
        forall|k1: int, k2: int| 0 <= k1 < k2 < e2.len() ==> #[trigger] e2[k1] < #[trigger] e2[k2],
        lists(e2, e1[0] as int),
        lists(e1, e2[0] as int),
    ensures
        e1[0] == e2[0],
{
    let k2 = choose|k2: int| 0 <= k2 < e2.len() && e2[k2] == e1[0];
    let k1 = choose|k1: int| 0 <= k1 < e1.len() && e1[k1] == e2[0];
    if k2 > 0 {
        assert(e2[0] < e2[k2]);
        if k1 > 0 {
            assert(e1[0] < e1[k1]);
        }
    }
}

proof fn lemma_sorted_same(e1: Seq<usize>, e2: Seq<usize>)
    requires
        forall|k1: int, k2: int| 0 <= k1 < k2 < e1.len() ==> #[trigger] e1[k1] < #[trigger] e1[k2],
        forall|k1: int, k2: int| 0 <= k1 < k2 < e2.len() ==> #[trigger] e2[k1] < #[trigger] e2[k2],
        forall|k: int| 0 <= k < e1.len() ==> lists(e2, #[trigger] e1[k] as int),
        forall|k: int| 0 <= k < e2.len() ==> lists(e1, #[trigger] e2[k] as int),
    ensures
        e1 == e2,
    decreases e1.len() + e2.len(),
{
    if e1.len() == 0 {
        if e2.len() > 0 {
            assert(lists(e1, e2[0] as int));
        }
        assert(e1 =~= e2);
    } else if e2.len() == 0 {
        assert(lists(e2, e1[0] as int));
    } else {
        lemma_sorted_head(e1, e2);
        let t1 = e1.drop_first();
        let t2 = e2.drop_first();
        assert forall|k: int| 0 <= k < t1.len() implies lists(t2, #[trigger] t1[k] as int) by {
            assert(lists(e2, e1[k + 1] as int));
            let j = choose|j: int| 0 <= j < e2.len() && e2[j] == e1[k + 1];
            assert(e1[0] < e1[k + 1]);
            assert(j > 0);
            assert(t2[j - 1] == t1[k]);
        }
        assert forall|k: int| 0 <= k < t2.len() implies lists(t1, #[trigger] t2[k] as int) by {
            assert(lists(e1, e2[k + 1] as int));
            let j = choose|j: int| 0 <= j < e1.len() && e1[j] == e2[k + 1];
            assert(e2[0] < e2[k + 1]);
            assert(j > 0);
            assert(t1[j - 1] == t2[k]);
        }
        assert forall|k1: int, k2: int| 0 <= k1 < k2 < t1.len() implies #[trigger] t1[k1] < #[trigger] t1[k2] by {
            assert(e1[k1 + 1] < e1[k2 + 1]);
        }
        assert forall|k1: int, k2: int| 0 <= k1 < k2 < t2.len() implies #[trigger] t2[k1] < #[trigger] t2[k2] by {
            assert(e2[k1 + 1] < e2[k2 + 1]);
        }
        lemma_sorted_same(t1, t2);
        assert(e1 =~= seq![e1[0]] + t1);
        assert(e2 =~= seq![e2[0]] + t2);
    }
}

/// The words of full mode from position `i` on, where `covered` is the
/// furthest end given so far: every edge out of each position, except that
/// a position with one edge, ending within `covered`, gives nothing.
pub open spec fn cut_all_from(d: Dict, s: Seq<char>, i: int, covered: int) -> Seq<Span>
    decreases s.len() - i,
{
    if i >= s.len() || i < 0 {
        seq![]
    } else {
        let e = dag_edges(d, s, i);
        if e.len() == 1 && e[0] <= covered {
            cut_all_from(d, s, i + 1, covered)
        } else {
            let reach = if e.len() > 0 && e.last() > covered { e.last() as int } else { covered };
            e.map_values(|j: usize| (i as usize, j)) + cut_all_from(d, s, i + 1, reach)
        }
    }
}

/// Every edge of a sentence's graph is a word of the dictionary with a
/// positive frequency, or else the one edge out of its position, and it
/// goes to the next character.
pub proof fn lemma_dag_edge_law(d: Dict, s: Seq<char>, i: int, j: int)
    requires
        dag_edge(d, s, i, j),
    ensures
        (d.contains_key(s.subrange(i, j)) && d[s.subrange(i, j)].0 > 0) || (j == i + 1 && forall|j2: int|
            #[trigger] dag_edge(d, s, i, j2) ==> j2 == j),
{
}

/// The best route's choice at each position scores at least as well as any
/// other edge out of that position.
pub proof fn lemma_route_optimal(d: Dict, s: Seq<char>, total: nat, rt: Seq<(i128, usize)>, i: int, j: int)
    requires
        route_ok(d, s, total, rt),
        0 <= i < s.len(),
        dag_edge(d, s, i, j),
    ensures
        weight(d, s, total, i, j) + rt[j].0 <= weight(d, s, total, i, rt[i].1 as int) + rt[rt[i].1 as int].0,
{
    assert(route_step_ok(d, s, total, rt, i));
}

} // verus!
