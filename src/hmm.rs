//! The hidden Markov model that labels each character of an unknown run as
//! the beginning, middle or end of a word, or a word of its own, and the
//! segmentation that follows from the labels.
use vstd::prelude::*;
use std::collections::HashMap;
use crate::text::{Span, tiles, lemma_tiles_concat, shift, CharClass, run_end, lemma_run_end,
    find_run_end, is_ascii_alnum, is_ascii_digit, ascii_alnum, ascii_digit, chars_of, string_of, pieces, views,
    lemma_tiles_flatten, lemma_tiles_shift, lemma_tiles_bounds, in_class, sub_vec_chars};

verus! {

broadcast use vstd::std_specs::hash::group_hash_axioms;

/// The label of a character: it begins a word, ends one, stands inside one,
/// or is a word by itself.
#[derive(Debug, PartialEq, Eq, Structural, Hash, PartialOrd, Ord, Clone, Copy)]
pub enum State {
    Begin,
    End,
    Middle,
    Single,
}

pub const NUM_STATES: usize = 4;

/// A bound on every weight of a model.
pub const MAX_WEIGHT: i64 = 0x1000_0000_0000_0000;

/// The weight of what the model does not know: a character it never saw.
pub const MIN_WEIGHT: i64 = -0x1000_0000_0000_0000;

impl State {
    pub open spec fn idx(self) -> int {
        match self {
            State::Begin => 0,
            State::End => 1,
            State::Middle => 2,
            State::Single => 3,
        }
    }

    pub fn index(self) -> (r: usize)
        ensures
            r == self.idx(),
    {
        match self {
            State::Begin => 0,
            State::End => 1,
            State::Middle => 2,
            State::Single => 3,
        }
    }
}

pub open spec fn state_at(i: int) -> State {
    if i == 0 {
        State::Begin
    } else if i == 1 {
        State::End
    } else if i == 2 {
        State::Middle
    } else {
        State::Single
    }
}

/// The two labels that may come right before `y`.
pub open spec fn prev_options(y: State) -> (State, State) {
    match y {
        State::Begin => (State::End, State::Single),
        State::End => (State::Begin, State::Middle),
        State::Middle => (State::Middle, State::Begin),
        State::Single => (State::Single, State::End),
    }
}

pub fn prev_options_of(y: State) -> (r: (State, State))
    ensures
        r == prev_options(y),
{
    match y {
        State::Begin => (State::End, State::Single),
        State::End => (State::Begin, State::Middle),
        State::Middle => (State::Middle, State::Begin),
        State::Single => (State::Single, State::End),
    }
}

/// `y0` may come right before `y`.
pub open spec fn can_follow(y0: State, y: State) -> bool {
    prev_options(y).0 == y0 || prev_options(y).1 == y0
}

/// A word may begin with a character labelled `y`.
pub open spec fn can_start(y: State) -> bool {
    y == State::Begin || y == State::Single
}

/// A word may end with a character labelled `y`.
pub open spec fn can_end(y: State) -> bool {
    y == State::End || y == State::Single
}

/// A labelling that splits a run into words: it starts a word at the
/// beginning, ends one at the end, and each label may follow the one before.
pub open spec fn valid_labels(p: Seq<State>) -> bool {
    &&& p.len() > 0
    &&& can_start(p[0])
    &&& can_end(p.last())
    &&& forall|t: int| 1 <= t < p.len() ==> can_follow(#[trigger] p[t - 1], p[t])
}

/// The weights of a hidden Markov model: log-probabilities in fixed point.
pub struct HmmModel {
    initial: Vec<i64>,
    trans: Vec<i64>,
    emit: Vec<HashMap<u32, i64>>,
}

/// `w` kept within the model's bounds.
pub open spec fn clamp(w: int) -> int {
    if w < MIN_WEIGHT {
        MIN_WEIGHT as int
    } else if w > MAX_WEIGHT {
        MAX_WEIGHT as int
    } else {
        w
    }
}

fn clamp_of(w: i64) -> (r: i64)
    ensures
        r == clamp(w as int),
{
    if w < MIN_WEIGHT {
        MIN_WEIGHT
    } else if w > MAX_WEIGHT {
        MAX_WEIGHT
    } else {
        w
    }
}

impl HmmModel {
    pub closed spec fn wf(&self) -> bool {
        &&& self.initial@.len() == NUM_STATES
        &&& self.trans@.len() == NUM_STATES * NUM_STATES
        &&& self.emit@.len() == NUM_STATES
        &&& vstd::std_specs::hash::obeys_key_model::<u32>()
        &&& vstd::std_specs::hash::builds_valid_hashers::<std::hash::RandomState>()
        &&& forall|i: int| 0 <= i < NUM_STATES ==> MIN_WEIGHT <= #[trigger] self.initial@[i] <= MAX_WEIGHT
        &&& forall|i: int| 0 <= i < NUM_STATES * NUM_STATES ==> MIN_WEIGHT <= #[trigger] self.trans@[i] <= MAX_WEIGHT
        &&& forall|i: int, c: u32| 0 <= i < NUM_STATES && #[trigger] self.emit@[i]@.contains_key(c)
            ==> MIN_WEIGHT <= self.emit@[i]@[c] <= MAX_WEIGHT
    }

    /// The weight of starting with `y`.
    pub closed spec fn init_w(&self, y: State) -> int {
        self.initial@[y.idx()] as int
    }

    /// The weight of going from `y0` to `y`.
    pub closed spec fn trans_w(&self, y0: State, y: State) -> int {
        self.trans@[y0.idx() * 4 + y.idx()] as int
    }

    /// The weight of `y` emitting `c`; the least weight where the model
    /// never saw `c` under `y`.
    pub closed spec fn emit_w(&self, y: State, c: char) -> int {
        if self.emit@[y.idx()]@.contains_key(c as u32) {
            self.emit@[y.idx()]@[c as u32] as int
        } else {
            MIN_WEIGHT as int
        }
    }

    pub proof fn lemma_bounds(&self, y0: State, y: State, c: char)
        requires
            self.wf(),
        ensures
            MIN_WEIGHT <= self.init_w(y) <= MAX_WEIGHT,
            MIN_WEIGHT <= self.trans_w(y0, y) <= MAX_WEIGHT,
            MIN_WEIGHT <= self.emit_w(y, c) <= MAX_WEIGHT,
    {
        assert(0 <= y0.idx() * 4 + y.idx() < 16);
        if self.emit@[y.idx()]@.contains_key(c as u32) {
            assert(self.emit@[y.idx()]@.contains_key(c as u32));
        }
    }

    /// A model with the given weights for the start and the transitions,
    /// in the order Begin, End, Middle, Single (transitions row by row),
    /// and no emission; each weight is kept within the model's bounds.
    pub fn new(initial: [i64; 4], trans: [i64; 16]) -> (r: Self)
        ensures
            r.wf(),
            forall|y: State| #[trigger] r.init_w(y) == clamp(initial@[y.idx()] as int),
            forall|y0: State, y: State| #[trigger] r.trans_w(y0, y) == clamp(trans@[y0.idx() * 4 + y.idx()] as int),
            forall|y: State, c: char| #[trigger] r.emit_w(y, c) == MIN_WEIGHT,
    {
        let mut ini: Vec<i64> = Vec::new();
        let mut i: usize = 0;
        while i < 4
            invariant
                i <= 4,
                ini@.len() == i,
                forall|k: int| 0 <= k < i ==> #[trigger] ini@[k] == clamp(initial@[k] as int),
            decreases 4 - i,
        {
            ini.push(clamp_of(initial[i]));
            i = i + 1;
        }
        let mut tr: Vec<i64> = Vec::new();
        let mut i: usize = 0;
        while i < 16
            invariant
                i <= 16,
                tr@.len() == i,
                forall|k: int| 0 <= k < i ==> #[trigger] tr@[k] == clamp(trans@[k] as int),
            decreases 16 - i,
        {
            tr.push(clamp_of(trans[i]));
            i = i + 1;
        }
        let mut emit: Vec<HashMap<u32, i64>> = Vec::new();
        let mut i: usize = 0;
        while i < 4
            invariant
                i <= 4,
                emit@.len() == i,
                forall|k: int| 0 <= k < i ==> (#[trigger] emit@[k])@ == Map::<u32, i64>::empty(),
            decreases 4 - i,
        {
            emit.push(HashMap::new());
            i = i + 1;
        }
        let r = HmmModel { initial: ini, trans: tr, emit };
        proof {
            assert(vstd::std_specs::hash::obeys_key_model::<u32>());
            assert(vstd::std_specs::hash::builds_valid_hashers::<std::hash::RandomState>());
            assert forall|y0: State, y: State| #[trigger] r.trans_w(y0, y) == clamp(trans@[y0.idx() * 4 + y.idx()] as int) by {
                assert(0 <= y0.idx() * 4 + y.idx() < 16);
            }
        }
        r
    }

    /// Sets the weight of `y` emitting `c`, kept within the model's bounds.
    pub fn set_emission(&mut self, y: State, c: char, w: i64)
        requires
            old(self).wf(),
        ensures
            final(self).wf(),
            final(self).emit_w(y, c) == clamp(w as int),
            forall|y2: State, c2: char| (y2 != y || c2 != c) ==> #[trigger] final(self).emit_w(y2, c2) == old(self).emit_w(y2, c2),
            forall|y0: State, y2: State| #[trigger] final(self).trans_w(y0, y2) == old(self).trans_w(y0, y2),
            forall|y2: State| #[trigger] final(self).init_w(y2) == old(self).init_w(y2),
    {
        let i = y.index();
        let ghost e0 = self.emit@;
        let mut m = self.emit.remove(i);
        m.insert(c as u32, clamp_of(w));
        self.emit.insert(i, m);
        assert(self.emit@ =~= e0.update(i as int, m));
        proof {
            assert forall|y2: State, c2: char| (y2 != y || c2 != c) implies #[trigger] self.emit_w(y2, c2) == old(self).emit_w(y2, c2) by {
                if y2 == y {
                    assert(c2 as u32 != c as u32) by {
                        vstd::utf8::char_u32_cast(c2, c2 as u32);
                        vstd::utf8::char_u32_cast(c, c as u32);
                    }
                }
            }
        }
    }

    fn emit_of(&self, y: State, c: char) -> (r: i64)
        requires
            self.wf(),
        ensures
            r == self.emit_w(y, c),
    {
        match self.emit[y.index()].get(&(c as u32)) {
            Some(w) => *w,
            None => MIN_WEIGHT,
        }
    }

    fn trans_of(&self, y0: State, y: State) -> (r: i64)
        requires
            self.wf(),
        ensures
            r == self.trans_w(y0, y),
    {
        self.trans[y0.index() * 4 + y.index()]
    }

    fn init_of(&self, y: State) -> (r: i64)
        requires
            self.wf(),
        ensures
            r == self.init_w(y),
    {
        self.initial[y.index()]
    }
}

/// The best weight of a labelling of `cs[0..=t]` that ends with `y`; at the
/// first character only Begin and Single may stand, so at the second each
/// label has one possible predecessor.
pub open spec fn score(m: HmmModel, cs: Seq<char>, t: int, y: State) -> int
    decreases t,
{
    if t <= 0 {
        m.init_w(y) + m.emit_w(y, cs[0])
    } else {
        let (a, b) = prev_options(y);
        let ca = score(m, cs, t - 1, a) + m.trans_w(a, y);
        let cb = score(m, cs, t - 1, b) + m.trans_w(b, y);
        let best = if t == 1 {
            if can_start(a) {
                ca
            } else {
                cb
            }
        } else if cb >= ca {
            cb
        } else {
            ca
        };
        best + m.emit_w(y, cs[t])
    }
}

/// The label before `y` at `t` on the best labelling; the later option on a tie.
pub open spec fn pick(m: HmmModel, cs: Seq<char>, t: int, y: State) -> State {
    let (a, b) = prev_options(y);
    let ca = score(m, cs, t - 1, a) + m.trans_w(a, y);
    let cb = score(m, cs, t - 1, b) + m.trans_w(b, y);
    if t == 1 {
        if can_start(a) {
            a
        } else {
            b
        }
    } else if cb >= ca {
        b
    } else {
        a
    }
}

/// The label of the last character: End or Single, whichever scores more;
/// Single on a tie.
pub open spec fn final_state(m: HmmModel, cs: Seq<char>) -> State {
    let t = cs.len() - 1;
    if score(m, cs, t, State::Single) >= score(m, cs, t, State::End) {
        State::Single
    } else {
        State::End
    }
}

/// The best labelling of `cs[0..=t]` that ends with `y`.
pub open spec fn path_from(m: HmmModel, cs: Seq<char>, t: int, y: State) -> Seq<State>
    decreases t,
{
    if t <= 0 {
        seq![y]
    } else {
        path_from(m, cs, t - 1, pick(m, cs, t, y)).push(y)
    }
}

/// The most likely labelling of `cs`.
pub open spec fn best_path(m: HmmModel, cs: Seq<char>) -> Seq<State> {
    path_from(m, cs, cs.len() - 1, final_state(m, cs))
}

proof fn lemma_score_bound(m: HmmModel, cs: Seq<char>, t: int, y: State)
    requires
        m.wf(),
        0 <= t < cs.len(),
    ensures
        -3 * (t + 1) * MAX_WEIGHT <= score(m, cs, t, y) <= 3 * (t + 1) * MAX_WEIGHT,
    decreases t,
{
    let (a, b) = prev_options(y);
    m.lemma_bounds(a, y, cs[t]);
    m.lemma_bounds(b, y, cs[t]);
    if t > 0 {
        lemma_score_bound(m, cs, t - 1, a);
        lemma_score_bound(m, cs, t - 1, b);
    }
}

proof fn lemma_path_from(m: HmmModel, cs: Seq<char>, t: int, y: State)
    requires
        t >= 0,
    ensures
        path_from(m, cs, t, y).len() == t + 1,
        path_from(m, cs, t, y)[t] == y,
        forall|k: int| 1 <= k <= t ==> #[trigger] path_from(m, cs, t, y)[k - 1] == pick(m, cs, k, path_from(m, cs, t, y)[k]),
    decreases t,
{
    if t > 0 {
        let y0 = pick(m, cs, t, y);
        lemma_path_from(m, cs, t - 1, y0);
        let p0 = path_from(m, cs, t - 1, y0);
        let p = path_from(m, cs, t, y);
        assert(p == p0.push(y));
        assert forall|k: int| 1 <= k <= t implies #[trigger] p[k - 1] == pick(m, cs, k, p[k]) by {
            if k < t {
                assert(p[k - 1] == p0[k - 1] && p[k] == p0[k]);
            }
        }
    }
}

/// The best labelling of a run of two or more characters splits it into
/// words: it begins with Begin or Single, ends with End or Single, and
/// each label may follow the one before it.
pub proof fn lemma_best_path_valid(m: HmmModel, cs: Seq<char>)
    requires
        cs.len() >= 2,
    ensures
        best_path(m, cs).len() == cs.len(),
        valid_labels(best_path(m, cs)),
{
    let t = cs.len() - 1;
    let y = final_state(m, cs);
    lemma_path_from(m, cs, t, y);
    let p = best_path(m, cs);
    assert(p[1 - 1] == pick(m, cs, 1, p[1]));
    assert forall|k: int| 1 <= k < p.len() implies can_follow(#[trigger] p[k - 1], p[k]) by {
        assert(p[k - 1] == pick(m, cs, k, p[k]));
    }
}

/// One cell of the Viterbi table: the score of `y` at `t` and its predecessor.
fn step(m: &HmmModel, cs: &Vec<char>, t: usize, prev_row: &Vec<i128>, y: State) -> (r: (i128, State))
    requires
        m.wf(),
        1 <= t < cs@.len(),
        cs@.len() * 4 <= isize::MAX,
        prev_row@.len() == NUM_STATES,
        forall|i: int| 0 <= i < NUM_STATES ==> #[trigger] prev_row@[i] == score(*m, cs@, t - 1, state_at(i)),
    ensures
        r.0 == score(*m, cs@, t as int, y),
        r.1 == pick(*m, cs@, t as int, y),
{
    let (a, b) = prev_options_of(y);
    proof {
        lemma_score_bound(*m, cs@, t - 1, a);
        lemma_score_bound(*m, cs@, t - 1, b);
        m.lemma_bounds(a, y, cs@[t as int]);
        m.lemma_bounds(b, y, cs@[t as int]);
        assert(state_at(a.idx()) == a);
        assert(state_at(b.idx()) == b);
        assert(3 * t * MAX_WEIGHT <= 3 * 0x2000_0000_0000_0000 * MAX_WEIGHT) by (nonlinear_arith)
            requires t <= 0x2000_0000_0000_0000;
    }
    let ca = prev_row[a.index()] + m.trans_of(a, y) as i128;
    let cb = prev_row[b.index()] + m.trans_of(b, y) as i128;
    let (best, from) = if t == 1 {
        if a == State::Begin || a == State::Single {
            (ca, a)
        } else {
            (cb, b)
        }
    } else if cb >= ca {
        (cb, b)
    } else {
        (ca, a)
    };
    (best + m.emit_of(y, cs[t]) as i128, from)
}

fn row_of(m: &HmmModel, cs: &Vec<char>, t: usize, prev_row: &Vec<i128>) -> (r: (Vec<i128>, Vec<State>))
    requires
        m.wf(),
        1 <= t < cs@.len(),
        cs@.len() * 4 <= isize::MAX,
        prev_row@.len() == NUM_STATES,
        forall|i: int| 0 <= i < NUM_STATES ==> #[trigger] prev_row@[i] == score(*m, cs@, t - 1, state_at(i)),
    ensures
        r.0@.len() == NUM_STATES,
        r.1@.len() == NUM_STATES,
        forall|i: int| 0 <= i < NUM_STATES ==> #[trigger] r.0@[i] == score(*m, cs@, t as int, state_at(i)),
        forall|i: int| 0 <= i < NUM_STATES ==> #[trigger] r.1@[i] == pick(*m, cs@, t as int, state_at(i)),
{
    let b = step(m, cs, t, prev_row, State::Begin);
    let e = step(m, cs, t, prev_row, State::End);
    let mi = step(m, cs, t, prev_row, State::Middle);
    let s = step(m, cs, t, prev_row, State::Single);
    let r = (vec![b.0, e.0, mi.0, s.0], vec![b.1, e.1, mi.1, s.1]);
    assert forall|i: int| 0 <= i < NUM_STATES implies #[trigger] r.0@[i] == score(*m, cs@, t as int, state_at(i)) by {}
    assert forall|i: int| 0 <= i < NUM_STATES implies #[trigger] r.1@[i] == pick(*m, cs@, t as int, state_at(i)) by {}
    r
}

/// The most likely labelling of `cs`, by the Viterbi algorithm.
pub fn viterbi(m: &HmmModel, cs: &Vec<char>) -> (r: Vec<State>)
    requires
        m.wf(),
        cs@.len() >= 2,
        cs@.len() * 4 <= isize::MAX,
    ensures
        r@ == best_path(*m, cs@),
{
    let c = cs.len();
    let mut first: Vec<i128> = Vec::new();
    let mut i: usize = 0;
    while i < NUM_STATES
        invariant
            m.wf(),
            cs@.len() >= 2,
            i <= NUM_STATES,
            first@.len() == i,
            forall|k: int| 0 <= k < i ==> #[trigger] first@[k] == score(*m, cs@, 0, state_at(k)),
        decreases NUM_STATES - i,
    {
        let y = if i == 0 { State::Begin } else if i == 1 { State::End } else if i == 2 { State::Middle } else { State::Single };
        proof { m.lemma_bounds(y, y, cs@[0]); }
        first.push(m.init_of(y) as i128 + m.emit_of(y, cs[0]) as i128);
        i = i + 1;
    }
    let mut v: Vec<Vec<i128>> = Vec::new();
    let mut prev: Vec<Vec<State>> = Vec::new();
    v.push(first);
    prev.push(vec![State::Begin, State::Begin, State::Begin, State::Begin]);
    let mut t: usize = 1;
    while t < c
        invariant
            m.wf(),
            c == cs@.len() >= 2,
            c * 4 <= isize::MAX,
            1 <= t <= c,
            v@.len() == t,
            prev@.len() == t,
            forall|t2: int| 0 <= t2 < t ==> (#[trigger] v@[t2])@.len() == NUM_STATES,
            forall|t2: int| 0 <= t2 < t ==> (#[trigger] prev@[t2])@.len() == NUM_STATES,
            forall|t2: int, k: int| 0 <= t2 < t && 0 <= k < NUM_STATES ==> #[trigger] v@[t2]@[k] == score(*m, cs@, t2, state_at(k)),
            forall|t2: int, k: int| 1 <= t2 < t && 0 <= k < NUM_STATES ==> #[trigger] prev@[t2]@[k] == pick(*m, cs@, t2, state_at(k)),
        decreases c - t,
    {
        let (row, from) = row_of(m, cs, t, &v[t - 1]);
        v.push(row);
        prev.push(from);
        t = t + 1;
    }
    let last = c - 1;
    let fin = if v[last][3] >= v[last][1] { State::Single } else { State::End };
    let ghost bp = best_path(*m, cs@);
    proof {
        lemma_path_from(*m, cs@, last as int, fin);
        assert(state_at(3) == State::Single && state_at(1) == State::End);
    }
    let mut path: Vec<State> = Vec::new();
    let mut k: usize = 0;
    while k < c
        invariant
            k <= c,
            path@.len() == k,
        decreases c - k,
    {
        path.push(State::Begin);
        k = k + 1;
    }
    path.set(last, fin);
    let mut t = last;
    while t > 0
        invariant
            c == cs@.len() >= 2,
            last == c - 1,
            t <= last,
            path@.len() == c,
            bp.len() == c,
            prev@.len() == c,
            forall|t2: int| 0 <= t2 < c ==> (#[trigger] prev@[t2])@.len() == NUM_STATES,
            forall|t2: int, k: int| 1 <= t2 < c && 0 <= k < NUM_STATES ==> #[trigger] prev@[t2]@[k] == pick(*m, cs@, t2, state_at(k)),
            forall|k: int| 1 <= k <= last ==> #[trigger] bp[k - 1] == pick(*m, cs@, k, bp[k]),
            forall|t2: int| t <= t2 < c ==> #[trigger] path@[t2] == bp[t2],
        decreases t,
    {
        let y = path[t];
        let p = prev[t][y.index()];
        proof {
            assert(state_at(y.idx()) == y);
            assert(bp[t - 1] == pick(*m, cs@, t as int, bp[t as int]));
        }
        path.set(t - 1, p);
        t = t - 1;
    }
    assert(path@ =~= bp);
    path
}

/// The words that the labels `p` mark, from `t` on: a word from each Begin
/// to the End that closes it, one for each Single, and whatever is left
/// after the last closed word as one more.
pub open spec fn label_spans(p: Seq<State>, t: int, begin: int, next: int) -> Seq<Span>
    decreases p.len() - t,
{
    if t >= p.len() || t < 0 {
        if next < p.len() {
            seq![(next as usize, p.len() as usize)]
        } else {
            seq![]
        }
    } else {
        match p[t] {
            State::Begin => label_spans(p, t + 1, t, next),
            State::End => seq![(begin as usize, (t + 1) as usize)] + label_spans(p, t + 1, begin, t + 1),
            State::Single => seq![(t as usize, (t + 1) as usize)] + label_spans(p, t + 1, begin, t + 1),
            State::Middle => label_spans(p, t + 1, begin, next),
        }
    }
}

proof fn lemma_label_spans_tiles(p: Seq<State>, t: int, begin: int, next: int)
    requires
        valid_labels(p),
        p.len() <= usize::MAX,
        0 <= t <= p.len(),
        0 <= next <= t,
        t == 0 || can_end(p[t - 1]) ==> next == t,
        t > 0 && !can_end(p[t - 1]) ==> begin == next && begin < t,
    ensures
        tiles(label_spans(p, t, begin, next), next, p.len() as int),
    decreases p.len() - t,
{
    if t < p.len() {
        if t > 0 {
            assert(can_follow(p[t - 1], p[t]));
        }
        match p[t] {
            State::Begin => {
                lemma_label_spans_tiles(p, t + 1, t, next);
            },
            State::Middle => {
                lemma_label_spans_tiles(p, t + 1, begin, next);
            },
            State::End => {
                lemma_label_spans_tiles(p, t + 1, begin, t + 1);
                let one = seq![(begin as usize, (t + 1) as usize)];
                assert(tiles(one, next, t + 1));
                lemma_tiles_concat(one, label_spans(p, t + 1, begin, t + 1), next, t + 1, p.len() as int);
            },
            State::Single => {
                lemma_label_spans_tiles(p, t + 1, begin, t + 1);
                let one = seq![(t as usize, (t + 1) as usize)];
                assert(tiles(one, next, t + 1));
                lemma_tiles_concat(one, label_spans(p, t + 1, begin, t + 1), next, t + 1, p.len() as int);
            },
        }
    } else {
        assert(can_end(p.last()));
        assert(tiles(seq![], next, p.len() as int));
    }
}

/// The words that the labels `p` mark, as spans.
pub fn spans_of_labels(p: &Vec<State>) -> (r: Vec<Span>)
    ensures
        r@ == label_spans(p@, 0, 0, 0),
{
    let n = p.len();
    let mut out: Vec<Span> = Vec::new();
    let mut begin: usize = 0;
    let mut next: usize = 0;
    let mut t: usize = 0;
    while t < n
        invariant
            n == p@.len(),
            t <= n,
            begin <= t,
            next <= t,
            out@ + label_spans(p@, t as int, begin as int, next as int) == label_spans(p@, 0, 0, 0),
        decreases n - t,
    {
        let ghost out0 = out@;
        let ghost b0 = begin as int;
        let ghost n0 = next as int;
        match p[t] {
            State::Begin => {
                begin = t;
            },
            State::End => {
                out.push((begin, t + 1));
                next = t + 1;
            },
            State::Single => {
                out.push((t, t + 1));
                next = t + 1;
            },
            State::Middle => {},
        }
        assert(out@ + label_spans(p@, t + 1, begin as int, next as int) =~= out0 + label_spans(
            p@, t as int, b0, n0));
        t = t + 1;
    }
    if next < n {
        out.push((next, n));
    }
    assert(out@ =~= label_spans(p@, 0, 0, 0));
    out
}

/// Where the match of `[a-zA-Z0-9]+(?:.[0-9]+)?%?` that starts at `p` ends,
/// not going past `e`: ASCII letters and digits, then maybe one character
/// other than a line feed followed by ASCII digits, then maybe a per cent
/// sign. Digits are ASCII digits only, also where the text holds digits of
/// other scripts.
pub open spec fn skip_match_end(r: Seq<char>, p: int, e: int) -> int {
    let a = run_end(r, p, e, CharClass::Alnum, true);
    let a2 = if a + 1 < e && r[a] != '\n' && is_ascii_digit(r[a + 1]) {
        run_end(r, a + 1, e, CharClass::Digit, true)
    } else {
        a
    };
    if a2 < e && r[a2] == '%' {
        a2 + 1
    } else {
        a2
    }
}

/// The pieces of `r[p..e]`, a run the model does not label: each match of
/// `skip_match_end`, and each stretch between matches, is one piece.
pub open spec fn skip_pieces(r: Seq<char>, p: int, e: int) -> Seq<Span>
    decreases e - p,
{
    if p >= e || p < 0 || e > r.len() {
        seq![]
    } else {
        let q = if is_ascii_alnum(r[p]) {
            skip_match_end(r, p, e)
        } else {
            run_end(r, p, e, CharClass::Alnum, false)
        };
        if q <= p || q > e {
            seq![]
        } else {
            seq![(p as usize, q as usize)] + skip_pieces(r, q, e)
        }
    }
}

proof fn lemma_skip_match_end(r: Seq<char>, p: int, e: int)
    requires
        0 <= p < e <= r.len(),
        is_ascii_alnum(r[p]),
    ensures
        p < skip_match_end(r, p, e) <= e,
{
    lemma_run_end(r, p, e, CharClass::Alnum, true);
    let a = run_end(r, p, e, CharClass::Alnum, true);
    assert(in_class(CharClass::Alnum, r[p]));
    if a + 1 < e && r[a] != '\n' && is_ascii_digit(r[a + 1]) {
        lemma_run_end(r, a + 1, e, CharClass::Digit, true);
    }
}

proof fn lemma_skip_pieces_tiles(r: Seq<char>, p: int, e: int)
    requires
        0 <= p <= e <= r.len() <= usize::MAX,
    ensures
        tiles(skip_pieces(r, p, e), p, e),
    decreases e - p,
{
    if p < e {
        let q = if is_ascii_alnum(r[p]) {
            lemma_skip_match_end(r, p, e);
            skip_match_end(r, p, e)
        } else {
            lemma_run_end(r, p, e, CharClass::Alnum, false);
            assert(!in_class(CharClass::Alnum, r[p]));
            run_end(r, p, e, CharClass::Alnum, false)
        };
        lemma_skip_pieces_tiles(r, q, e);
        let one = seq![(p as usize, q as usize)];
        assert(tiles(one, p, q));
        lemma_tiles_concat(one, skip_pieces(r, q, e), p, q, e);
    }
}

/// The words of `r[i..]` by the model: each run of U+4E00 to U+9FD5 is
/// labelled (a run of one character is a word), and the rest is cut by
/// `skip_pieces`.
pub open spec fn hmm_from(m: HmmModel, r: Seq<char>, i: int) -> Seq<Span>
    decreases r.len() - i,
{
    if i >= r.len() || i < 0 {
        seq![]
    } else {
        let f = in_class(CharClass::HanHmm, r[i]);
        let e = run_end(r, i, r.len() as int, CharClass::HanHmm, f);
        if e <= i || e > r.len() {
            seq![]
        } else {
            let here = if f {
                if e - i > 1 {
                    shift(label_spans(best_path(m, r.subrange(i, e)), 0, 0, 0), i)
                } else {
                    seq![(i as usize, e as usize)]
                }
            } else {
                skip_pieces(r, i, e)
            };
            here + hmm_from(m, r, e)
        }
    }
}

/// The words of `r` by the model.
pub open spec fn hmm_spans(m: HmmModel, r: Seq<char>) -> Seq<Span> {
    hmm_from(m, r, 0)
}

proof fn lemma_hmm_from_tiles(m: HmmModel, r: Seq<char>, i: int)
    requires
        0 <= i <= r.len() <= usize::MAX,
    ensures
        tiles(hmm_from(m, r, i), i, r.len() as int),
    decreases r.len() - i,
{
    if i < r.len() {
        let f = in_class(CharClass::HanHmm, r[i]);
        lemma_run_end(r, i, r.len() as int, CharClass::HanHmm, f);
        let e = run_end(r, i, r.len() as int, CharClass::HanHmm, f);
        lemma_hmm_from_tiles(m, r, e);
        if f {
            if e - i > 1 {
                let run = r.subrange(i, e);
                lemma_best_path_valid(m, run);
                lemma_label_spans_tiles(best_path(m, run), 0, 0, 0);
                lemma_tiles_shift(label_spans(best_path(m, run), 0, 0, 0), 0, e - i, i);
            } else {
                assert(tiles(seq![(i as usize, e as usize)], i, e));
            }
        } else {
            lemma_skip_pieces_tiles(r, i, e);
        }
        let here = if f {
            if e - i > 1 {
                shift(label_spans(best_path(m, r.subrange(i, e)), 0, 0, 0), i)
            } else {
                seq![(i as usize, e as usize)]
            }
        } else {
            skip_pieces(r, i, e)
        };
        lemma_tiles_concat(here, hmm_from(m, r, e), i, e, r.len() as int);
    }
}

/// The words of a run by the model tile the run.
pub proof fn lemma_hmm_spans_tiles(m: HmmModel, r: Seq<char>)
    requires
        r.len() <= usize::MAX,
    ensures
        tiles(hmm_spans(m, r), 0, r.len() as int),
{
    lemma_hmm_from_tiles(m, r, 0);
}

/// Appends `sp` shifted by `off` to `out`.
pub fn append_shifted(out: &mut Vec<Span>, sp: &Vec<Span>, off: usize)
    requires
        forall|k: int| 0 <= k < sp@.len() ==> (#[trigger] sp@[k]).1 + off <= usize::MAX && sp@[k].0 + off <= usize::MAX,
    ensures
        final(out)@ == old(out)@ + shift(sp@, off as int),
{
    let ghost o0 = out@;
    let mut k: usize = 0;
    while k < sp.len()
        invariant
            k <= sp@.len(),
            out@ == o0 + shift(sp@.subrange(0, k as int), off as int),
            forall|k2: int| 0 <= k2 < sp@.len() ==> (#[trigger] sp@[k2]).1 + off <= usize::MAX && sp@[k2].0 + off <= usize::MAX,
        decreases sp@.len() - k,
    {
        let p = sp[k];
        out.push((p.0 + off, p.1 + off));
        assert(shift(sp@.subrange(0, k + 1), off as int) =~= shift(sp@.subrange(0, k as int), off as int).push(
            ((p.0 + off) as usize, (p.1 + off) as usize)));
        k = k + 1;
    }
    assert(sp@.subrange(0, sp@.len() as int) =~= sp@);
}

/// The words of `r` by the model, as spans.
pub fn cut_spans(m: &HmmModel, r: &Vec<char>) -> (out: Vec<Span>)
    requires
        m.wf(),
        r@.len() * 4 <= isize::MAX,
    ensures
        out@ == hmm_spans(*m, r@),
{
    let n = r.len();
    let mut out: Vec<Span> = Vec::new();
    let mut i: usize = 0;
    while i < n
        invariant
            m.wf(),
            n == r@.len(),
            n * 4 <= isize::MAX,
            i <= n,
            out@ + hmm_from(*m, r@, i as int) == hmm_from(*m, r@, 0),
        decreases n - i,
    {
        let f = class_has_hmm(r[i]);
        let e = find_run_end(r, i, n, CharClass::HanHmm, f);
        proof { lemma_run_end(r@, i as int, n as int, CharClass::HanHmm, f); }
        let ghost out0 = out@;
        if f {
            if e - i > 1 {
                let run = sub_vec_chars(r, i, e);
                let labels = viterbi(m, &run);
                let sp = spans_of_labels(&labels);
                proof {
                    lemma_best_path_valid(*m, run@);
                    lemma_label_spans_tiles(best_path(*m, run@), 0, 0, 0);
                    lemma_tiles_bounds(sp@, 0, (e - i) as int);
                }
                append_shifted(&mut out, &sp, i);
            } else {
                out.push((i, e));
            }
        } else {
            let mut p = i;
            while p < e
                invariant
                    i <= p <= e <= n == r@.len(),
                    n * 4 <= isize::MAX,
                    out@ + skip_pieces(r@, p as int, e as int) == out0 + skip_pieces(r@, i as int, e as int),
                decreases e - p,
            {
                let q = if ascii_alnum(r[p]) {
                    let a = find_run_end(r, p, e, CharClass::Alnum, true);
                    let a2 = if a + 1 < e && r[a] != '\n' && ascii_digit(r[a + 1]) {
                        find_run_end(r, a + 1, e, CharClass::Digit, true)
                    } else {
                        a
                    };
                    if a2 < e && r[a2] == '%' {
                        a2 + 1
                    } else {
                        a2
                    }
                } else {
                    find_run_end(r, p, e, CharClass::Alnum, false)
                };
                proof {
                    if is_ascii_alnum(r@[p as int]) {
                        lemma_skip_match_end(r@, p as int, e as int);
                    } else {
                        lemma_run_end(r@, p as int, e as int, CharClass::Alnum, false);
                        assert(!in_class(CharClass::Alnum, r@[p as int]));
                    }
                }
                let ghost o1 = out@;
                out.push((p, q));
                assert(out@ + skip_pieces(r@, q as int, e as int) =~= o1 + skip_pieces(r@, p as int, e as int));
                p = q;
            }
        }
        assert(out@ + hmm_from(*m, r@, e as int) =~= out0 + hmm_from(*m, r@, i as int));
        i = e;
    }
    assert(out@ =~= hmm_from(*m, r@, 0));
    out
}

fn class_has_hmm(c: char) -> (r: bool)
    ensures
        r == in_class(CharClass::HanHmm, c),
{
    '\u{4E00}' <= c && c <= '\u{9FD5}'
}

/// Cuts `sentence` by the model alone and appends its words to `words`.
pub fn cut(m: &HmmModel, sentence: &str, words: &mut Vec<String>)
    requires
        m.wf(),
    ensures
        views(final(words)@) == views(old(words)@) + pieces(sentence@, hmm_spans(*m, sentence@)),
        pieces(sentence@, hmm_spans(*m, sentence@)).flatten() == sentence@,
{
    let r = chars_of(sentence);
    let sp = cut_spans(m, &r);
    proof {
        lemma_hmm_spans_tiles(*m, r@);
        lemma_tiles_bounds(sp@, 0, r@.len() as int);
        lemma_tiles_flatten(r@, sp@, 0, r@.len() as int);
    }
    let ghost w0 = views(words@);
    let mut k: usize = 0;
    while k < sp.len()
        invariant
            k <= sp@.len(),
            r@ == sentence@,
            tiles(sp@, 0, r@.len() as int),
            forall|j: int| 0 <= j < sp@.len() ==> 0 <= (#[trigger] sp@[j]).0 && sp@[j].1 <= r@.len(),
            forall|j: int| 0 <= j < sp@.len() ==> (#[trigger] sp@[j]).0 < sp@[j].1,
            views(words@) == w0 + pieces(r@, sp@.subrange(0, k as int)),
        decreases sp@.len() - k,
    {
        let p = sp[k];
        let w = string_of(r.as_slice(), p.0, p.1);
        let ghost before = words@;
        words.push(w);
        proof {
            assert(sp@.subrange(0, k + 1) =~= sp@.subrange(0, k as int).push(p));
            assert(pieces(r@, sp@.subrange(0, k + 1)) =~= pieces(r@, sp@.subrange(0, k as int)).push(
                r@.subrange(p.0 as int, p.1 as int)));
            assert(views(words@) =~= views(before).push(w@));
        }
        assert(views(words@) =~= w0 + pieces(r@, sp@.subrange(0, k + 1)));
        k = k + 1;
    }
    assert(sp@.subrange(0, sp@.len() as int) =~= sp@);
}

} // verus!
