//! Segmentation of one block: the word graph, the best route and the walks
//! that turn the route into words.
use vstd::prelude::*;
use crate::graph::{dag_edge, edge_list_ok, has_word_at, is_word_edge, route_ok, route_step_ok, weight, lemma_weight_bound, W_BOUND, best_route, route_next, lemma_route_unique, lemma_dag_edge_forward, steps_forward, walk_no_hmm, walk_hmm, flush_run, singles, dag_edges, lemma_edge_list_unique, cut_all_from,
    lemma_walk_no_hmm_tiles, lemma_walk_hmm_tiles};
use crate::blocks::{default_skip, all_skip, block_spans, block_class, cut_from, lemma_default_skip_tiles, piece_spans};
use crate::jieba::Jieba;
use crate::log_weight::{log_weight, log_weight_of, ONE};
use crate::sparse_dag::StaticSparseDAG;
use crate::hmm::{cut_spans, append_shifted, lemma_hmm_spans_tiles};
use crate::text::{unmixed, is_white_space, in_class, sub_vec_chars, push_char, string_of, Span, ascii_alnum, tiles, lemma_tiles_bounds, CharClass, lemma_run_end, find_run_end, class_has, shift, lemma_tiles_concat, lemma_tiles_shift};

verus! {

/// Appends an edge from `i` to each end in `e`.
fn push_edges(out: &mut Vec<Span>, i: usize, e: &Vec<usize>, n: usize)
    requires
        forall|k: int| 0 <= k < e@.len() ==> i < #[trigger] e@[k] <= n,
        forall|k: int| 0 <= k < old(out)@.len() ==> (#[trigger] old(out)@[k]).0 < old(out)@[k].1 <= n,
    ensures
        final(out)@ == old(out)@ + e@.map_values(|j: usize| (i, j)),
        forall|k: int| 0 <= k < final(out)@.len() ==> (#[trigger] final(out)@[k]).0 < final(out)@[k].1 <= n,
{
    let ghost o0 = out@;
    let mut k: usize = 0;
    while k < e.len()
        invariant
            k <= e@.len(),
            forall|k2: int| 0 <= k2 < e@.len() ==> i < #[trigger] e@[k2] <= n,
            out@ == o0 + e@.subrange(0, k as int).map_values(|j: usize| (i, j)),
            forall|k2: int| 0 <= k2 < out@.len() ==> (#[trigger] out@[k2]).0 < out@[k2].1 <= n,
        decreases e@.len() - k,
    {
        let ghost o1 = out@;
        out.push((i, e[k]));
        assert(e@.subrange(0, k + 1).map_values(|j: usize| (i, j)) =~= e@.subrange(0, k as int).map_values(
            |j: usize| (i, j)).push((i, e@[k as int])));
        assert forall|k2: int| 0 <= k2 < out@.len() implies (#[trigger] out@[k2]).0 < out@[k2].1 <= n by {
            if k2 < o1.len() {
                assert(out@[k2] == o1[k2]);
            }
        }
        k = k + 1;
    }
    assert(e@.subrange(0, e@.len() as int) =~= e@);
}

impl Jieba {
    /// Fills `dag` with the graph of `s`: for each position, the ends of the
    /// words that start there, or the next position where none does.
    pub fn dag(&self, s: &Vec<char>, dag: &mut StaticSparseDAG)
        requires
            self.wf(),
            old(dag).wf(),
            old(dag).open_node() is None,
            s@.len() < usize::MAX,
        ensures
            final(dag).wf(),
            final(dag).open_node() is None,
            forall|i: int| 0 <= i < s@.len() ==> #[trigger] final(dag)@.contains_key(i as usize)
                && edge_list_ok(self.dict(), s@, i, final(dag)@[i as usize]),
    {
        let n = s.len();
        let ghost d = self.dict();
        proof { self.lemma_prefix_closed(); }
        let mut i: usize = 0;
        while i < n
            invariant
                n == s@.len() < usize::MAX,
                d == self.dict(),
                self.wf(),
                dag.wf(),
                dag.open_node() is None,
                i <= n,
                forall|i2: int| 0 <= i2 < i ==> #[trigger] dag@.contains_key(i2 as usize) && edge_list_ok(
                    d,
                    s@,
                    i2,
                    dag@[i2 as usize],
                ),
                forall|w: Seq<char>, k: int|
                    #![trigger d.contains_key(w), w.subrange(0, k)]
                    d.contains_key(w) && 0 < k < w.len() ==> d.contains_key(w.subrange(0, k)),
            decreases n - i,
        {
            let ghost before = dag@;
            dag.start(i);
            let mut p = String::new();
            let mut j: usize = i + 1;
            let mut found = false;
            loop
                invariant_except_break
                    p@ == s@.subrange(i as int, j - 1),
                invariant
                    n == s@.len() < usize::MAX,
                    d == self.dict(),
                    self.wf(),
                    i < n,
                    i + 1 <= j <= n + 1,
                    dag.wf(),
                    dag.open_node() == Some(i),
                    dag@ == before.insert(i, dag@[i]),
                    found == (dag@[i].len() > 0),
                    forall|k: int| 0 <= k < dag@[i].len() ==> is_word_edge(d, s@, i as int, #[trigger] dag@[i][k] as int)
                        && dag@[i][k] < j,
                    forall|k1: int, k2: int| 0 <= k1 < k2 < dag@[i].len() ==> #[trigger] dag@[i][k1] < #[trigger] dag@[i][k2],
                    forall|j2: int| j2 < j && is_word_edge(d, s@, i as int, j2) ==> exists|k: int|
                        0 <= k < dag@[i].len() && #[trigger] dag@[i][k] == j2,
                    forall|w: Seq<char>, k: int|
                        #![trigger d.contains_key(w), w.subrange(0, k)]
                        d.contains_key(w) && 0 < k < w.len() ==> d.contains_key(w.subrange(0, k)),
                ensures
                    dag.wf(),
                    dag.open_node() == Some(i),
                    dag@ == before.insert(i, dag@[i]),
                    found == (dag@[i].len() > 0),
                    forall|k: int| 0 <= k < dag@[i].len() ==> is_word_edge(d, s@, i as int, #[trigger] dag@[i][k] as int),
                    forall|k1: int, k2: int| 0 <= k1 < k2 < dag@[i].len() ==> #[trigger] dag@[i][k1] < #[trigger] dag@[i][k2],
                    forall|j2: int| is_word_edge(d, s@, i as int, j2) ==> exists|k: int|
                        0 <= k < dag@[i].len() && #[trigger] dag@[i][k] == j2,
                decreases n + 1 - j,
            {
                if j > n {
                    break;
                }
                push_char(&mut p, s[j - 1]);
                assert(p@ =~= s@.subrange(i as int, j as int));
                match self.entry_freq(p.as_str()) {
                    None => {
                        assert forall|j2: int| is_word_edge(d, s@, i as int, j2) implies exists|k: int|
                            0 <= k < dag@[i].len() && #[trigger] dag@[i][k] == j2 by {
                            if j2 >= j {
                                let w = s@.subrange(i as int, j2);
                                assert(d.contains_key(w));
                                if j2 > j {
                                    assert(w.subrange(0, j - i) =~= p@);
                                    assert(d.contains_key(w.subrange(0, j - i)));
                                }
                            }
                        }
                        break;
                    },
                    Some(f) => {
                        let ghost e0 = dag@[i];
                        if f > 0 {
                            dag.insert(j);
                            found = true;
                            assert(dag@[i] == e0.push(j));
                            assert forall|j2: int| j2 < j + 1 && is_word_edge(d, s@, i as int, j2) implies exists|k: int|
                                0 <= k < dag@[i].len() && #[trigger] dag@[i][k] == j2 by {
                                if j2 == j {
                                    assert(dag@[i][e0.len() as int] == j2);
                                } else {
                                    let k = choose|k: int| 0 <= k < e0.len() && #[trigger] e0[k] == j2;
                                    assert(dag@[i][k] == j2);
                                }
                            }
                            assert(dag@ =~= before.insert(i, dag@[i]));
                        } else {
                            assert(!is_word_edge(d, s@, i as int, j as int));
                        }
                    },
                }
                j = j + 1;
            }
            if !found {
                proof {
                    assert(!has_word_at(d, s@, i as int)) by {
                        if has_word_at(d, s@, i as int) {
                            let j2 = choose|j2: int| is_word_edge(d, s@, i as int, j2);
                            let k = choose|k: int| 0 <= k < dag@[i].len() && #[trigger] dag@[i][k] == j2;
                        }
                    }
                }
                dag.insert(i + 1);
            }
            let ghost e = dag@[i];
            dag.commit();
            proof {
                if found {
                    assert forall|k: int| 0 <= k < e.len() implies dag_edge(d, s@, i as int, #[trigger] e[k] as int) by {
                        assert(is_word_edge(d, s@, i as int, e[k] as int));
                    }
                    assert(has_word_at(d, s@, i as int)) by {
                        assert(is_word_edge(d, s@, i as int, e[0] as int));
                    }
                } else {
                    assert(e =~= seq![(i + 1) as usize]);
                    assert forall|j2: int| dag_edge(d, s@, i as int, j2) implies exists|k: int|
                        0 <= k < e.len() && #[trigger] e[k] == j2 by {
                        assert(e[0] == j2);
                    }
                }
                assert(edge_list_ok(d, s@, i as int, e));
                assert forall|i2: int| 0 <= i2 < i + 1 implies #[trigger] dag@.contains_key(i2 as usize) && edge_list_ok(
                    d, s@, i2, dag@[i2 as usize]) by {
                    if i2 < i {
                        assert(before.contains_key(i2 as usize));
                        assert(dag@[i2 as usize] == before[i2 as usize]);
                    }
                }
            }
            i = i + 1;
        }
    }

    /// The weight of the edge `s[i..j]`.
    fn edge_weight(&self, s: &Vec<char>, i: usize, j: usize, log_total: i64) -> (r: i128)
        requires
            self.wf(),
            i < j <= s@.len(),
            log_total == log_weight(self.total()),
            0 <= log_total < 64 * ONE,
        ensures
            r == weight(self.dict(), s@, self.total(), i as int, j as int),
            -W_BOUND < r < W_BOUND,
    {
        let w = string_of(s.as_slice(), i, j);
        let f = self.get_word_freq(w.as_str(), 1);
        let f = if f == 0 { 1 } else { f };
        let lw = log_weight_of(f);
        proof {
            lemma_weight_bound(self.dict(), s@, self.total(), i as int, j as int);
        }
        lw as i128 - log_total as i128
    }

    /// The best route through the graph of `s`.
    pub fn calc(&self, s: &Vec<char>, dag: &StaticSparseDAG) -> (route: Vec<(i128, usize)>)
        requires
            self.wf(),
            dag.wf(),
            dag.open_node() is None,
            s@.len() < usize::MAX,
            forall|i: int| 0 <= i < s@.len() ==> #[trigger] dag@.contains_key(i as usize)
                && edge_list_ok(self.dict(), s@, i, dag@[i as usize]),
        ensures
            route_ok(self.dict(), s@, self.total(), route@),
    {
        let n = s.len();
        let ghost d = self.dict();
        let ghost t = self.total();
        let log_total = log_weight_of(self.total_freq());
        let mut route: Vec<(i128, usize)> = Vec::new();
        let mut k: usize = 0;
        while k < n
            invariant
                k <= n,
                route@.len() == k,
            decreases n - k,
        {
            route.push((0, 0));
            k = k + 1;
        }
        route.push((0, n));
        let mut i: usize = n;
        while i > 0
            invariant
                n == s@.len() < usize::MAX,
                i <= n,
                d == self.dict(),
                t == self.total(),
                self.wf(),
                log_total == log_weight(t),
                0 <= log_total < 64 * ONE,
                route@.len() == n + 1,
                route@[n as int] == (0i128, n),
                forall|i2: int| i <= i2 < n ==> route_step_ok(d, s@, t, route@, i2),
                forall|i2: int| i <= i2 <= n ==> -(n - i2) * W_BOUND <= #[trigger] route@[i2].0 <= (n - i2) * W_BOUND,
                forall|i2: int| 0 <= i2 < s@.len() ==> #[trigger] dag@.contains_key(i2 as usize)
                    && edge_list_ok(d, s@, i2, dag@[i2 as usize]),
                dag.wf(),
                dag.open_node() is None,
            decreases i,
        {
            i = i - 1;
            let ghost e = dag@[i];
            assert(dag@.contains_key(i));
            let mut it = dag.iter_edges(i);
            let mut best: (i128, usize) = (0, 0);
            let mut any = false;
            let ghost mut seen: int = 0;
            loop
                invariant
                    n == s@.len() < usize::MAX,
                    i < n,
                    d == self.dict(),
                    t == self.total(),
                    self.wf(),
                    log_total == log_weight(t),
                    0 <= log_total < 64 * ONE,
                    route@.len() == n + 1,
                    forall|i2: int| i < i2 <= n ==> -(n - i2) * W_BOUND <= #[trigger] route@[i2].0 <= (n - i2) * W_BOUND,
                    edge_list_ok(d, s@, i as int, e),
                    it.wf(),
                    0 <= seen <= e.len(),
                    any == (seen > 0),
                    it@ == e.subrange(seen, e.len() as int),
                    seen > 0 ==> {
                        &&& dag_edge(d, s@, i as int, best.1 as int)
                        &&& best.0 == weight(d, s@, t, i as int, best.1 as int) + route@[best.1 as int].0
                        &&& -(n - i) * W_BOUND <= best.0 <= (n - i) * W_BOUND
                        &&& forall|k: int| 0 <= k < seen ==> weight(d, s@, t, i as int, #[trigger] e[k] as int)
                            + route@[e[k] as int].0 <= best.0
                        &&& forall|k: int| 0 <= k < seen && #[trigger] e[k] > best.1 ==> weight(d, s@, t, i as int, e[k] as int)
                            + route@[e[k] as int].0 < best.0
                        &&& exists|k: int| 0 <= k < seen && #[trigger] e[k] == best.1
                    },
                ensures
                    seen == e.len(),
                decreases e.len() - seen,
            {
                match it.next() {
                    None => {
                        break;
                    },
                    Some(j) => {
                        assert(j == e[seen]);
                        assert(dag_edge(d, s@, i as int, j as int));
                        let w = self.edge_weight(s, i, j, log_total);
                        let sj = route[j].0;
                        proof {
                            assert((n - j) * W_BOUND + W_BOUND <= (n - i) * W_BOUND) by (nonlinear_arith)
                                requires j >= i + 1;
                        }
                        let cand = w + sj;
                        if !any || cand >= best.0 {
                            proof {
                                assert forall|k: int| 0 <= k < seen + 1 && #[trigger] e[k] > j implies weight(d, s@, t, i as int, e[k] as int)
                                    + route@[e[k] as int].0 < cand by {
                                    assert(e[k] <= e[seen]) by {
                                        if k < seen { assert(e[k] < e[seen]); }
                                    }
                                }
                            }
                            best = (cand, j);
                        } else {
                            proof {
                                let kb = choose|k: int| 0 <= k < seen && #[trigger] e[k] == best.1;
                                assert(e[kb] < e[seen]);
                            }
                        }
                        any = true;
                        proof { seen = seen + 1; }
                        assert(it@ =~= e.subrange(seen, e.len() as int));
                    },
                }
            }
            proof {
                assert(e.len() > 0) by {
                    if has_word_at(d, s@, i as int) {
                        let j2 = choose|j2: int| is_word_edge(d, s@, i as int, j2);
                        assert(dag_edge(d, s@, i as int, j2));
                    } else {
                        assert(dag_edge(d, s@, i as int, i + 1));
                    }
                }
            }
            let ghost rt0 = route@;
            route.set(i, best);
            proof {
                let rt = route@;
                assert forall|j: int| #[trigger] dag_edge(d, s@, i as int, j) implies weight(d, s@, t, i as int, j) + rt[j].0 <= rt[i as int].0
                    && (j > best.1 ==> weight(d, s@, t, i as int, j) + rt[j].0 < rt[i as int].0) by {
                    let k = choose|k: int| 0 <= k < e.len() && #[trigger] e[k] == j;
                    assert(j > i);
                }
                assert forall|i2: int| i <= i2 < n implies route_step_ok(d, s@, t, route@, i2) by {
                    if i2 > i {
                        assert(route_step_ok(d, s@, t, rt0, i2));
                        let rt = route@;
                        let next = rt[i2].1 as int;
                        assert(rt[i2] == rt0[i2]);
                        assert(dag_edge(d, s@, i2, next));
                        assert(next > i2);
                        assert(rt[next] == rt0[next]);
                        assert forall|j: int| #[trigger] dag_edge(d, s@, i2, j) implies weight(d, s@, t, i2, j) + rt[j].0 <= rt[i2].0
                            && (j > next ==> weight(d, s@, t, i2, j) + rt[j].0 < rt[i2].0) by {
                            assert(rt[j] == rt0[j]);
                        }
                    }
                }
            }
        }
        route
    }

    /// The best route of `s`, found through its word graph.
    fn best_route_of(&self, s: &Vec<char>, dag: &mut StaticSparseDAG) -> (route: Vec<(i128, usize)>)
        requires
            self.wf(),
            old(dag).wf(),
            old(dag).open_node() is None,
            s@.len() < usize::MAX,
        ensures
            final(dag).wf(),
            final(dag).open_node() is None,
            final(dag)@ == Map::<usize, Seq<usize>>::empty(),
            route_ok(self.dict(), s@, self.total(), route@),
            route@ == best_route(self.dict(), s@, self.total()),
            steps_forward(s@, route_next(self.dict(), s@, self.total())),
            forall|i: int| 0 <= i < route@.len() ==> #[trigger] route@[i].1 == route_next(self.dict(), s@, self.total())[i],
    {
        self.dag(s, dag);
        let route = self.calc(s, dag);
        dag.clear();
        proof {
            let d = self.dict();
            let t = self.total();
            let rt = best_route(d, s@, t);
            assert(route_ok(d, s@, t, rt));
            lemma_route_unique(d, s@, t, route@, rt);
            assert forall|i: int| 0 <= i < s@.len() implies i < #[trigger] route_next(d, s@, t)[i] <= s@.len() by {
                assert(route_step_ok(d, s@, t, rt, i));
                lemma_dag_edge_forward(d, s@, i, rt[i].1 as int);
            }
        }
        route
    }

    /// The words of the block `s` along its best route, with runs of ASCII
    /// letters and digits joined; as spans of `s`.
    fn cut_dag_no_hmm(&self, s: &Vec<char>, dag: &mut StaticSparseDAG) -> (r: Vec<Span>)
        requires
            self.wf(),
            old(dag).wf(),
            old(dag).open_node() is None,
            s@.len() < usize::MAX,
        ensures
            final(dag).wf(),
            final(dag).open_node() is None,
            final(dag)@ == Map::<usize, Seq<usize>>::empty(),
            r@ == walk_no_hmm(s@, route_next(self.dict(), s@, self.total()), 0, None),
            steps_forward(s@, route_next(self.dict(), s@, self.total())),
    {
        let route = self.best_route_of(s, dag);
        let ghost next = route_next(self.dict(), s@, self.total());
        let n = s.len();
        let mut out: Vec<Span> = Vec::new();
        let mut x: usize = 0;
        let mut left: Option<usize> = None;
        while x < n
            invariant
                n == s@.len() < usize::MAX,
                x <= n,
                steps_forward(s@, next),
                route@.len() == n + 1,
                forall|i: int| 0 <= i < route@.len() ==> #[trigger] route@[i].1 == next[i],
                left matches Some(l) ==> l < x,
                out@ + walk_no_hmm(s@, next, x as int, match left { Some(l) => Some(l as int), None => None })
                    == walk_no_hmm(s@, next, 0, None),
            decreases n - x,
        {
            let y = route[x].1;
            assert(y == next[x as int]);
            if y == x + 1 && ascii_alnum(s[x]) {
                if left.is_none() {
                    left = Some(x);
                }
            } else {
                let ghost out0 = out@;
                let ghost lf0 = match left { Some(l) => Some(l as int), None => None };
                if let Some(l) = left {
                    out.push((l, x));
                }
                out.push((x, y));
                left = None;
                assert(out@ + walk_no_hmm(s@, next, y as int, None) =~= out0 + walk_no_hmm(s@, next, x as int, lf0));
            }
            x = y;
        }
        if let Some(l) = left {
            out.push((l, n));
        }
        assert(out@ =~= walk_no_hmm(s@, next, 0, None));
        out
    }

    /// The words of the run `s[l..x]` of one-character steps.
    fn flush(&self, s: &Vec<char>, l: usize, x: usize, out: &mut Vec<Span>)
        requires
            self.wf(),
            l < x <= s@.len(),
            s@.len() * 4 <= isize::MAX,
        ensures
            final(out)@ == old(out)@ + flush_run(self.dict(), self.model(), s@, l as int, x as int),
    {
        if x - l == 1 {
            out.push((l, x));
        } else {
            let w = string_of(s.as_slice(), l, x);
            let f = self.get_word_freq(w.as_str(), 0);
            if f == 0 {
                let run = sub_vec_chars(s, l, x);
                let sp = cut_spans(self.hmm_model(), &run);
                proof {
                    lemma_hmm_spans_tiles(self.model(), run@);
                    lemma_tiles_bounds(sp@, 0, (x - l) as int);
                }
                append_shifted(out, &sp, l);
            } else {
                let ghost o0 = out@;
                let mut k = l;
                while k < x
                    invariant
                        l <= k <= x,
                        out@ == o0 + singles(l as int, k as int),
                    decreases x - k,
                {
                    out.push((k, k + 1));
                    assert(singles(l as int, k + 1) =~= singles(l as int, k as int).push((k, (k + 1) as usize)));
                    k = k + 1;
                }
            }
        }
    }

    /// The words of the block `s` along its best route, with the runs of
    /// one-character steps cut again, by the model where they are no word.
    fn cut_dag_hmm(&self, s: &Vec<char>, dag: &mut StaticSparseDAG) -> (r: Vec<Span>)
        requires
            self.wf(),
            old(dag).wf(),
            old(dag).open_node() is None,
            s@.len() * 4 <= isize::MAX,
        ensures
            final(dag).wf(),
            final(dag).open_node() is None,
            final(dag)@ == Map::<usize, Seq<usize>>::empty(),
            r@ == walk_hmm(self.dict(), self.model(), s@, route_next(self.dict(), s@, self.total()), 0, None),
            steps_forward(s@, route_next(self.dict(), s@, self.total())),
    {
        let route = self.best_route_of(s, dag);
        let ghost next = route_next(self.dict(), s@, self.total());
        let ghost d = self.dict();
        let ghost m = self.model();
        let n = s.len();
        let mut out: Vec<Span> = Vec::new();
        let mut x: usize = 0;
        let mut left: Option<usize> = None;
        while x < n
            invariant
                self.wf(),
                d == self.dict(),
                m == self.model(),
                n == s@.len(),
                n * 4 <= isize::MAX,
                x <= n,
                steps_forward(s@, next),
                route@.len() == n + 1,
                forall|i: int| 0 <= i < route@.len() ==> #[trigger] route@[i].1 == next[i],
                left matches Some(l) ==> l < x,
                out@ + walk_hmm(d, m, s@, next, x as int, match left { Some(l) => Some(l as int), None => None })
                    == walk_hmm(d, m, s@, next, 0, None),
            decreases n - x,
        {
            let y = route[x].1;
            assert(y == next[x as int]);
            if y == x + 1 {
                if left.is_none() {
                    left = Some(x);
                }
            } else {
                let ghost out0 = out@;
                let ghost lf0 = match left { Some(l) => Some(l as int), None => None };
                if let Some(l) = left {
                    self.flush(s, l, x, &mut out);
                }
                out.push((x, y));
                left = None;
                assert(out@ + walk_hmm(d, m, s@, next, y as int, None) =~= out0 + walk_hmm(d, m, s@, next, x as int, lf0));
            }
            x = y;
        }
        let ghost out1 = out@;
        if let Some(l) = left {
            self.flush(s, l, n, &mut out);
        }
        assert(out@ =~= walk_hmm(d, m, s@, next, 0, None));
        out
    }

    /// Every edge of the graph of `s`, position by position, leaving out a
    /// position whose one edge ends within what was already given.
    fn cut_all_internal(&self, s: &Vec<char>, dag: &mut StaticSparseDAG) -> (r: Vec<Span>)
        requires
            self.wf(),
            old(dag).wf(),
            old(dag).open_node() is None,
            s@.len() < usize::MAX,
        ensures
            final(dag).wf(),
            final(dag).open_node() is None,
            final(dag)@ == Map::<usize, Seq<usize>>::empty(),
            r@ == cut_all_from(self.dict(), s@, 0, 0),
            forall|k: int| 0 <= k < r@.len() ==> (#[trigger] r@[k]).0 < r@[k].1 <= s@.len(),
    {
        self.dag(s, dag);
        let ghost d = self.dict();
        let n = s.len();
        let mut out: Vec<Span> = Vec::new();
        let mut covered: usize = 0;
        let mut i: usize = 0;
        while i < n
            invariant
                n == s@.len() < usize::MAX,
                i <= n,
                covered <= n,
                d == self.dict(),
                dag.wf(),
                dag.open_node() is None,
                forall|i2: int| 0 <= i2 < s@.len() ==> #[trigger] dag@.contains_key(i2 as usize)
                    && crate::graph::edge_list_ok(d, s@, i2, dag@[i2 as usize]),
                out@ + cut_all_from(d, s@, i as int, covered as int) == cut_all_from(d, s@, 0, 0),
                forall|k: int| 0 <= k < out@.len() ==> (#[trigger] out@[k]).0 < out@[k].1 <= n,
            decreases n - i,
        {
            assert(dag@.contains_key((i as int) as usize));
            let e = dag.edges(i);
            proof {
                assert(crate::graph::edge_list_ok(d, s@, i as int, e@));
                let de = dag_edges(d, s@, i as int);
                assert(crate::graph::edge_list_ok(d, s@, i as int, de));
                lemma_edge_list_unique(d, s@, i as int, e@, de);
            }
            let ghost out0 = out@;
            let ghost cov0 = covered as int;
            if e.len() == 1 && e[0] <= covered {
            } else {
                proof {
                    assert forall|k2: int| 0 <= k2 < e@.len() implies i < #[trigger] e@[k2] <= n by {
                        assert(crate::graph::dag_edge(d, s@, i as int, e@[k2] as int));
                        lemma_dag_edge_forward(d, s@, i as int, e@[k2] as int);
                    }
                }
                push_edges(&mut out, i, &e, n);
                if e.len() > 0 && e[e.len() - 1] > covered {
                    assert(crate::graph::dag_edge(d, s@, i as int, e@[e@.len() - 1] as int));
                    covered = e[e.len() - 1];
                }
            }
            assert(out@ + cut_all_from(d, s@, i + 1, covered as int) =~= out0 + cut_all_from(d, s@, i as int, cov0));
            i = i + 1;
        }
        dag.clear();
        out
    }

    /// Appends the words of a block `s[i..e]` of word characters.
    fn word_block(&self, s: &Vec<char>, i: usize, e: usize, cut_all: bool, hmm: bool, dag: &mut StaticSparseDAG, out: &mut Vec<Span>)
        requires
            self.wf(),
            i < e <= s@.len(),
            s@.len() * 4 <= isize::MAX,
            old(dag).wf(),
            old(dag).open_node() is None,
        ensures
            final(dag).wf(),
            final(dag).open_node() is None,
            final(out)@ == old(out)@ + piece_spans(self.dict(), self.total(), self.model(), s@, cut_all, hmm, i as int, e as int, true),
            !cut_all ==> tiles(piece_spans(self.dict(), self.total(), self.model(), s@, cut_all, hmm, i as int, e as int, true), i as int, e as int),
            forall|k: int| 0 <= k < final(out)@.len() - old(out)@.len() ==> i <= (#[trigger] final(out)@[old(out)@.len() + k]).0 < final(out)@[old(out)@.len() + k].1 <= e,
    {
        let ghost d = self.dict();
        let ghost t = self.total();
        let ghost m = self.model();
        let block = sub_vec_chars(s, i, e);
        let sp = if cut_all {
            self.cut_all_internal(&block, dag)
        } else if hmm {
            let sp = self.cut_dag_hmm(&block, dag);
            proof {
                lemma_walk_hmm_tiles(d, m, block@, route_next(d, block@, t), 0, None);
            }
            sp
        } else {
            let sp = self.cut_dag_no_hmm(&block, dag);
            proof {
                lemma_walk_no_hmm_tiles(block@, route_next(d, block@, t), 0, None);
            }
            sp
        };
        proof {
            assert(sp@ == block_spans(d, t, m, block@, cut_all, hmm));
            if !cut_all {
                lemma_tiles_bounds(sp@, 0, (e - i) as int);
                lemma_tiles_shift(sp@, 0, (e - i) as int, i as int);
            }
            assert forall|k: int| 0 <= k < sp@.len() implies 0 <= (#[trigger] sp@[k]).0 < sp@[k].1 <= e - i by {
                if !cut_all {
                    assert(sp@[k].0 < sp@[k].1);
                }
            }
        }
        let ghost o0 = out@;
        append_shifted(out, &sp, i);
        proof {
            reveal(piece_spans);
            assert forall|k: int| 0 <= k < out@.len() - o0.len() implies i <= (#[trigger] out@[o0.len() + k]).0 < out@[o0.len() + k].1 <= e by {
                assert(out@[o0.len() + k] == shift(sp@, i as int)[k]);
                assert(0 <= sp@[k].0 < sp@[k].1 <= e - i);
            }
        }
    }

    /// Appends the pieces of `s[i..e]`, a stretch outside the word blocks.
    fn skip_block(s: &Vec<char>, i: usize, e: usize, cut_all: bool, out: &mut Vec<Span>, Ghost(d): Ghost<crate::jieba::Dict>,
        Ghost(t): Ghost<nat>, Ghost(m): Ghost<crate::hmm::HmmModel>, Ghost(hmm): Ghost<bool>)
        requires
            i < e <= s@.len(),
            s@.len() * 4 <= isize::MAX,
        ensures
            final(out)@ == old(out)@ + piece_spans(d, t, m, s@, cut_all, hmm, i as int, e as int, false),
            !cut_all ==> tiles(piece_spans(d, t, m, s@, cut_all, hmm, i as int, e as int, false), i as int, e as int),
            forall|k: int| 0 <= k < final(out)@.len() - old(out)@.len() ==> i <= (#[trigger] final(out)@[old(out)@.len() + k]).0 < final(out)@[old(out)@.len() + k].1 <= e,
            !cut_all ==> forall|k: int| 0 <= k < final(out)@.len() - old(out)@.len() ==> unmixed(s@, #[trigger] final(out)@[old(out)@.len() + k]),
    {
        proof {
            reveal(piece_spans);
            if !cut_all {
                lemma_default_skip_tiles(s@, i as int, e as int);
            }
        }
        let ghost o0 = out@;
        let mut p = i;
        while p < e
            invariant
                i <= p <= e <= s@.len(),
                s@.len() * 4 <= isize::MAX,
                out@.len() >= o0.len(),
                out@ + (if cut_all { all_skip(s@, p as int, e as int) } else { default_skip(s@, p as int, e as int) })
                    == o0 + (if cut_all { all_skip(s@, i as int, e as int) } else { default_skip(s@, i as int, e as int) }),
                forall|k: int| 0 <= k < out@.len() - o0.len() ==> i <= (#[trigger] out@[o0.len() + k]).0 < out@[o0.len() + k].1 <= p,
                !cut_all ==> forall|k: int| 0 <= k < out@.len() - o0.len() ==> unmixed(s@, #[trigger] out@[o0.len() + k]),
            decreases e - p,
        {
            let q = if cut_all {
                if class_has(CharClass::Kept, s[p]) {
                    let q = find_run_end(s, p, e, CharClass::Kept, true);
                    proof { lemma_run_end(s@, p as int, e as int, CharClass::Kept, true); }
                    q
                } else {
                    p + 1
                }
            } else if s[p] == '\r' && p + 1 < e && s[p + 1] == '\n' {
                p + 2
            } else {
                p + 1
            };
            let ghost o1 = out@;
            out.push((p, q));
            proof {
                assert(out@ + (if cut_all { all_skip(s@, q as int, e as int) } else { default_skip(s@, q as int, e as int) })
                    =~= o1 + (if cut_all { all_skip(s@, p as int, e as int) } else { default_skip(s@, p as int, e as int) }));
                assert forall|k: int| 0 <= k < out@.len() - o0.len() implies i <= (#[trigger] out@[o0.len() + k]).0 < out@[o0.len() + k].1 <= q by {
                    if k < o1.len() - o0.len() {
                        assert(out@[o0.len() + k] == o1[o0.len() + k]);
                    }
                }
                if !cut_all {
                    assert(unmixed(s@, (p, q)));
                    assert forall|k: int| 0 <= k < out@.len() - o0.len() implies unmixed(s@, #[trigger] out@[o0.len() + k]) by {
                        if k < o1.len() - o0.len() {
                            assert(out@[o0.len() + k] == o1[o0.len() + k]);
                        }
                    }
                }
            }
            p = q;
        }
        assert(out@ == o0 + (if cut_all { all_skip(s@, i as int, e as int) } else { default_skip(s@, i as int, e as int) }));
    }

    /// The words of `s`: blocks of word characters are cut by the
    /// dictionary, the rest by the skip rules; as spans of `s`.
    pub fn cut_internal(&self, s: &Vec<char>, cut_all: bool, hmm: bool) -> (r: Vec<Span>)
        requires
            self.wf(),
            s@.len() * 4 <= isize::MAX,
        ensures
            r@ == cut_from(self.dict(), self.total(), self.model(), s@, cut_all, hmm, 0),
            !cut_all ==> tiles(r@, 0, s@.len() as int),
            forall|k: int| 0 <= k < r@.len() ==> (#[trigger] r@[k]).0 < r@[k].1 <= s@.len(),
            !cut_all ==> forall|k: int| 0 <= k < r@.len() ==> unmixed(s@, #[trigger] r@[k]),
    {
        let n = s.len();
        let ghost d = self.dict();
        let ghost t = self.total();
        let ghost m = self.model();
        let hint = if n / 2 < 1_000_000 { n / 2 } else { 1_000_000 };
        let mut dag = StaticSparseDAG::with_size_hint(hint);
        let k = if cut_all { CharClass::HanAll } else { CharClass::Han };
        let mut out: Vec<Span> = Vec::new();
        let mut i: usize = 0;
        while i < n
            invariant
                self.wf(),
                d == self.dict(),
                t == self.total(),
                m == self.model(),
                n == s@.len(),
                n * 4 <= isize::MAX,
                k == block_class(cut_all),
                i <= n,
                dag.wf(),
                dag.open_node() is None,
                out@ + cut_from(d, t, m, s@, cut_all, hmm, i as int) == cut_from(d, t, m, s@, cut_all, hmm, 0),
                !cut_all ==> tiles(out@, 0, i as int),
                forall|k2: int| 0 <= k2 < out@.len() ==> (#[trigger] out@[k2]).0 < out@[k2].1 <= n,
                !cut_all ==> forall|k2: int| 0 <= k2 < out@.len() ==> unmixed(s@, #[trigger] out@[k2]),
            decreases n - i,
        {
            let f = class_has(k, s[i]);
            let e = find_run_end(s, i, n, k, f);
            proof { lemma_run_end(s@, i as int, n as int, k, f); }
            let ghost out0 = out@;
            if f {
                self.word_block(s, i, e, cut_all, hmm, &mut dag, &mut out);
            } else {
                Self::skip_block(s, i, e, cut_all, &mut out, Ghost(d), Ghost(t), Ghost(m), Ghost(hmm));
            }
            proof {
                let here = out@.subrange(out0.len() as int, out@.len() as int);
                assert(out@ =~= out0 + here);
                assert(out@ + cut_from(d, t, m, s@, cut_all, hmm, e as int) =~= out0 + cut_from(d, t, m, s@, cut_all, hmm, i as int));
                if !cut_all {
                    lemma_tiles_concat(out0, here, 0, i as int, e as int);
                }
                assert forall|k2: int| 0 <= k2 < out@.len() implies (#[trigger] out@[k2]).0 < out@[k2].1 <= n by {
                    if k2 >= out0.len() {
                        assert(out@[out0.len() + (k2 - out0.len())] == out@[k2]);
                    } else {
                        assert(out@[k2] == out0[k2]);
                    }
                }
                if !cut_all {
                    assert forall|k2: int| 0 <= k2 < out@.len() implies unmixed(s@, #[trigger] out@[k2]) by {
                        if k2 >= out0.len() {
                            assert(out@[out0.len() + (k2 - out0.len())] == out@[k2]);
                            if f {
                                let q = out@[k2];
                                assert(i <= q.0 && q.1 <= e);
                                assert forall|a: int| q.0 <= a < q.1 implies !is_white_space(#[trigger] s@[a]) by {
                                    assert(in_class(CharClass::Han, s@[a]));
                                }
                            }
                        } else {
                            assert(out@[k2] == out0[k2]);
                        }
                    }
                }
            }
            i = e;
        }
        assert(out@ =~= cut_from(d, t, m, s@, cut_all, hmm, 0));
        out
    }
}

} // verus!
