//! A word graph kept in one flat buffer: the end positions of the edges out
//! of each node are stored one after another, each list closed by a zero.
use vstd::prelude::*;
use std::collections::HashMap;

verus! {

broadcast use vstd::std_specs::hash::group_hash_axioms;

/// The most slots that `with_size_hint` reserves in advance.
pub const MAX_RESERVED: usize = 1_000_000;

pub struct StaticSparseDAG {
    array: Vec<usize>,
    start_pos: HashMap<usize, usize>,
    /// The longest edge list committed so far.
    pub size_hint_for_iterator: usize,
    curr_insertion_len: usize,
    edges: Ghost<Map<usize, Seq<usize>>>,
    open: Ghost<Option<usize>>,
}

/// The edges that remain to be read from one node's list.
pub struct EdgeIter<'a> {
    dag: &'a StaticSparseDAG,
    cursor: usize,
    stop: Ghost<usize>,
}

impl StaticSparseDAG {
    /// The edge lists: for each node started, the end positions inserted for it.
    pub closed spec fn view(&self) -> Map<usize, Seq<usize>> {
        self.edges@
    }

    /// The longest edge list committed so far.
    pub closed spec fn size_hint(&self) -> nat {
        self.size_hint_for_iterator as nat
    }

    /// The node whose list is being filled, if any.
    pub closed spec fn open_node(&self) -> Option<usize> {
        self.open@
    }

    pub closed spec fn wf(&self) -> bool {
        let a = self.array@;
        &&& vstd::std_specs::hash::obeys_key_model::<usize>()
        &&& forall|f: usize| #[trigger] self.edges@.contains_key(f) <==> self.start_pos@.contains_key(f)
        &&& forall|f: usize| #[trigger] self.edges@.contains_key(f) ==> {
            let p = self.start_pos@[f] as int;
            let e = self.edges@[f];
            &&& forall|k: int| 0 <= k < e.len() ==> a[p + k] == #[trigger] e[k] + 1
            &&& if self.open@ == Some(f) {
                p + e.len() == a.len()
            } else {
                &&& p + e.len() < a.len()
                &&& a[p + e.len()] == 0
            }
        }
        &&& self.open@ matches Some(f) ==> self.edges@.contains_key(f) && self.curr_insertion_len
            == self.edges@[f].len() && self.curr_insertion_len <= a.len()
    }

    pub fn with_size_hint(hint: usize) -> (r: Self)
        ensures
            r.wf(),
            r@ == Map::<usize, Seq<usize>>::empty(),
            r.open_node() is None,
            r.size_hint() == 0,
    {
        let reserve = if hint <= MAX_RESERVED / 5 { hint * 5 } else { MAX_RESERVED };
        StaticSparseDAG {
            array: Vec::with_capacity(reserve),
            start_pos: HashMap::new(),
            size_hint_for_iterator: 0,
            curr_insertion_len: 0,
            edges: Ghost(Map::empty()),
            open: Ghost(None),
        }
    }

    /// Opens the list of the edges out of `from`, replacing any earlier one.
    pub fn start(&mut self, from: usize)
        requires
            old(self).wf(),
            old(self).open_node() is None,
        ensures
            final(self).wf(),
            final(self)@ == old(self)@.insert(from, Seq::<usize>::empty()),
            final(self).open_node() == Some(from),
            final(self).size_hint() == old(self).size_hint(),
    {
        let idx = self.array.len();
        self.curr_insertion_len = 0;
        self.start_pos.insert(from, idx);
        self.edges = Ghost(self.edges@.insert(from, Seq::empty()));
        self.open = Ghost(Some(from));
    }

    /// Adds an edge to `to` at the end of the open list.
    pub fn insert(&mut self, to: usize)
        requires
            old(self).wf(),
            old(self).open_node() is Some,
            to < usize::MAX,
        ensures
            final(self).wf(),
            final(self).open_node() == old(self).open_node(),
            final(self)@ == old(self)@.insert(
                old(self).open_node()->0,
                old(self)@[old(self).open_node()->0].push(to),
            ),
            final(self).size_hint() == old(self).size_hint(),
    {
        let ghost f = self.open@->0;
        let ghost a0 = self.array@;
        self.array.push(to + 1);
        let _n = self.array.len();
        self.curr_insertion_len = self.curr_insertion_len + 1;
        self.edges = Ghost(self.edges@.insert(f, self.edges@[f].push(to)));
        proof {
            let a = self.array@;
            assert forall|g: usize| #[trigger] self.edges@.contains_key(g) implies {
                let p = self.start_pos@[g] as int;
                let e = self.edges@[g];
                &&& forall|k: int| 0 <= k < e.len() ==> a[p + k] == #[trigger] e[k] + 1
                &&& if self.open@ == Some(g) {
                    p + e.len() == a.len()
                } else {
                    &&& p + e.len() < a.len()
                    &&& a[p + e.len()] == 0
                }
            } by {
                let p = self.start_pos@[g] as int;
                let e = self.edges@[g];
                assert forall|k: int| 0 <= k < e.len() implies a[p + k] == #[trigger] e[k] + 1 by {
                    if g == f && k == e.len() - 1 {
                    } else {
                        assert(a[p + k] == a0[p + k]);
                    }
                }
            }
        }
    }

    /// Closes the open list.
    pub fn commit(&mut self)
        requires
            old(self).wf(),
            old(self).open_node() is Some,
        ensures
            final(self).wf(),
            final(self)@ == old(self)@,
            final(self).open_node() is None,
            final(self).size_hint() == if old(self).size_hint() >= old(self)@[old(self).open_node()->0].len() {
                old(self).size_hint() as int
            } else {
                old(self)@[old(self).open_node()->0].len() as int
            },
    {
        if self.curr_insertion_len > self.size_hint_for_iterator {
            self.size_hint_for_iterator = self.curr_insertion_len;
        }
        let ghost a0 = self.array@;
        self.array.push(0);
        self.open = Ghost(None);
        proof {
            let a = self.array@;
            assert forall|g: usize| #[trigger] self.edges@.contains_key(g) implies {
                let p = self.start_pos@[g] as int;
                let e = self.edges@[g];
                &&& forall|k: int| 0 <= k < e.len() ==> a[p + k] == #[trigger] e[k] + 1
                &&& p + e.len() < a.len()
                &&& a[p + e.len()] == 0
            } by {
                let p = self.start_pos@[g] as int;
                let e = self.edges@[g];
                assert forall|k: int| 0 <= k < e.len() implies a[p + k] == #[trigger] e[k] + 1 by {
                    assert(a[p + k] == a0[p + k]);
                }
            }
        }
    }

    /// The edges out of `from`, in the order they were inserted.
    pub fn iter_edges(&self, from: usize) -> (r: EdgeIter<'_>)
        requires
            self.wf(),
            self@.contains_key(from),
            self.open_node() != Some(from),
        ensures
            r.wf(),
            r@ == self@[from],
    {
        let cursor = *self.start_pos.get(&from).unwrap();
        let ghost e = self.edges@[from];
        let ghost a = self.array@;
        assert(self.edges@.contains_key(from));
        assert(cursor == self.start_pos@[from]);
        assert(cursor + e.len() < a.len());
        let _n = self.array.len();
        let ghost stop: usize = (cursor + e.len()) as usize;
        assert(stop == cursor + e.len());
        let r = EdgeIter { dag: self, cursor, stop: Ghost(stop) };
        assert(r.stop@ == stop);
        assert(r.cursor == cursor);
        assert forall|k: int| cursor <= k < r.stop@ implies #[trigger] a[k] > 0 by {
            assert(a[cursor + (k - cursor)] == e[k - cursor] + 1);
        }
        assert(r.dag.array@ == a);
        assert(r@.len() == e.len());
        assert forall|k: int| 0 <= k < e.len() implies #[trigger] r@[k] == e[k] by {
            assert(a[cursor + k] == e[k] + 1);
            assert(r@[k] == (a[cursor + k] - 1) as usize);
        }
        assert(r@ =~= e);
        r
    }

    /// The edges out of `from`, in the order they were inserted.
    pub fn edges(&self, from: usize) -> (r: Vec<usize>)
        requires
            self.wf(),
            self@.contains_key(from),
            self.open_node() != Some(from),
        ensures
            r@ == self@[from],
    {
        let mut it = self.iter_edges(from);
        let mut r: Vec<usize> = Vec::new();
        loop
            invariant
                it.wf(),
                r@ + it@ == self@[from],
            ensures
                r@ == self@[from],
            decreases it@.len(),
        {
            match it.next() {
                Some(e) => {
                    r.push(e);
                },
                None => {
                    assert(r@ =~= self@[from]);
                    break;
                },
            }
            assert(r@ + it@ =~= self@[from]);
        }
        r
    }

    /// Forgets every list.
    pub fn clear(&mut self)
        requires
            old(self).wf(),
        ensures
            final(self).wf(),
            final(self)@ == Map::<usize, Seq<usize>>::empty(),
            final(self).open_node() is None,
            final(self).size_hint() == old(self).size_hint(),
    {
        self.array.clear();
        self.start_pos.clear();
        self.edges = Ghost(Map::empty());
        self.open = Ghost(None);
        self.curr_insertion_len = 0;
    }
}

impl<'a> EdgeIter<'a> {
    /// The edges not read yet.
    pub closed spec fn view(&self) -> Seq<usize> {
        let a = self.dag.array@;
        Seq::new((self.stop@ - self.cursor) as nat, |k: int| (a[self.cursor + k] - 1) as usize)
    }

    pub closed spec fn wf(&self) -> bool {
        let a = self.dag.array@;
        &&& self.cursor <= self.stop@ < a.len()
        &&& a[self.stop@ as int] == 0
        &&& forall|k: int| self.cursor <= k < self.stop@ ==> #[trigger] a[k] > 0
    }

    /// The next edge, if any is left.
    pub fn next(&mut self) -> (r: Option<usize>)
        requires
            old(self).wf(),
        ensures
            final(self).wf(),
            old(self)@.len() > 0 ==> r == Some(old(self)@[0]) && final(self)@ == old(self)@.drop_first(),
            old(self)@.len() == 0 ==> r is None && final(self)@.len() == 0,
    {
        let v = self.dag.array[self.cursor];
        if v == 0 {
            None
        } else {
            self.cursor = self.cursor + 1;
            assert(self@ =~= old(self)@.drop_first());
            Some(v - 1)
        }
    }
}

} // verus!
