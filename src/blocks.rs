//! How a whole text is cut: into blocks of word characters and the rest,
//! and each block by its own rule.
use vstd::prelude::*;
use crate::graph::{walk_no_hmm, walk_hmm, cut_all_from, route_next};
use crate::hmm::HmmModel;
use crate::jieba::Dict;
use crate::text::{Span, tiles, shift, CharClass, in_class, run_end, lemma_run_end, lemma_tiles_concat,
    chars_of, string_of, find_run_end, class_has};

verus! {

/// The pieces of `s[p..e]`, outside the word blocks in the default modes:
/// a carriage return with its line feed is one piece, and every other
/// character is a piece of its own.
pub open spec fn default_skip(s: Seq<char>, p: int, e: int) -> Seq<Span>
    decreases e - p,
{
    if p >= e || p < 0 {
        seq![]
    } else if s[p] == '\r' && p + 1 < e && s[p + 1] == '\n' {
        seq![(p as usize, (p + 2) as usize)] + default_skip(s, p + 2, e)
    } else {
        seq![(p as usize, (p + 1) as usize)] + default_skip(s, p + 1, e)
    }
}

/// The pieces of `s[p..e]`, outside the CJK blocks in full mode: each run
/// of ASCII letters, digits, `+`, `#` and line feeds is one piece, and
/// every other character is a piece of its own.
pub open spec fn all_skip(s: Seq<char>, p: int, e: int) -> Seq<Span>
    decreases e - p,
{
    if p >= e || p < 0 || e > s.len() {
        seq![]
    } else if in_class(CharClass::Kept, s[p]) {
        let q = run_end(s, p, e, CharClass::Kept, true);
        if q <= p || q > e {
            seq![]
        } else {
            seq![(p as usize, q as usize)] + all_skip(s, q, e)
        }
    } else {
        seq![(p as usize, (p + 1) as usize)] + all_skip(s, p + 1, e)
    }
}

/// The words of a block `b` of word characters.
pub open spec fn block_spans(d: Dict, total: nat, m: HmmModel, b: Seq<char>, cut_all: bool, hmm: bool) -> Seq<Span> {
    if cut_all {
        cut_all_from(d, b, 0, 0)
    } else if hmm {
        walk_hmm(d, m, b, route_next(d, b, total), 0, None)
    } else {
        walk_no_hmm(b, route_next(d, b, total), 0, None)
    }
}

/// The class whose runs are the word blocks of a mode.
pub open spec fn block_class(cut_all: bool) -> CharClass {
    if cut_all {
        CharClass::HanAll
    } else {
        CharClass::Han
    }
}

/// The words of the run `s[i..e]`, which is inside the block class where
/// `inside` holds.
#[verifier::opaque]
pub open spec fn piece_spans(d: Dict, total: nat, m: HmmModel, s: Seq<char>, cut_all: bool, hmm: bool, i: int, e: int, inside: bool) -> Seq<Span> {
    if inside {
        shift(block_spans(d, total, m, s.subrange(i, e), cut_all, hmm), i)
    } else if cut_all {
        all_skip(s, i, e)
    } else {
        default_skip(s, i, e)
    }
}

/// The words of `s` from position `i` on: the text is split into maximal
/// runs in and out of the block class; runs in it are cut by
/// `block_spans`, the others by `all_skip` or `default_skip`.
pub open spec fn cut_from(d: Dict, total: nat, m: HmmModel, s: Seq<char>, cut_all: bool, hmm: bool, i: int) -> Seq<Span>
    decreases s.len() - i,
{
    if i >= s.len() || i < 0 {
        seq![]
    } else {
        let k = block_class(cut_all);
        let f = in_class(k, s[i]);
        let e = run_end(s, i, s.len() as int, k, f);
        if e <= i || e > s.len() {
            seq![]
        } else {
            piece_spans(d, total, m, s, cut_all, hmm, i, e, f) + cut_from(d, total, m, s, cut_all, hmm, e)
        }
    }
}

/// The words of `s`, as spans.
pub open spec fn cut_spans(d: Dict, total: nat, m: HmmModel, s: Seq<char>, cut_all: bool, hmm: bool) -> Seq<Span> {
    cut_from(d, total, m, s, cut_all, hmm, 0)
}

pub proof fn lemma_default_skip_tiles(s: Seq<char>, p: int, e: int)
    requires
        0 <= p <= e <= s.len() <= usize::MAX,
    ensures
        tiles(default_skip(s, p, e), p, e),
    decreases e - p,
{
    if p < e {
        let q = if s[p] == '\r' && p + 1 < e && s[p + 1] == '\n' { p + 2 } else { p + 1 };
        lemma_default_skip_tiles(s, q, e);
        let one = seq![(p as usize, q as usize)];
        assert(tiles(one, p, q));
        lemma_tiles_concat(one, default_skip(s, q, e), p, q, e);
    }
}

/// The maximal runs of `s` from `i` on, each with whether its characters
/// are in the class `k`.
pub open spec fn runs_from(s: Seq<char>, k: CharClass, i: int) -> Seq<(Span, bool)>
    decreases s.len() - i,
{
    if i < 0 || i >= s.len() {
        seq![]
    } else {
        let f = in_class(k, s[i]);
        let e = run_end(s, i, s.len() as int, k, f);
        if e <= i || e > s.len() {
            seq![]
        } else {
            seq![((i as usize, e as usize), f)] + runs_from(s, k, e)
        }
    }
}

/// A piece of a text: a block of word characters, or a stretch between blocks.
#[derive(Debug, Clone, PartialEq, Eq)]
pub enum SplitState {
    Unmatched(String),
    Matched(String),
}

impl SplitState {
    /// The text of the piece.
    pub fn into_str(self) -> (r: String)
        ensures
            r == match self {
                SplitState::Unmatched(t) => t,
                SplitState::Matched(t) => t,
            },
    {
        match self {
            SplitState::Unmatched(t) => t,
            SplitState::Matched(t) => t,
        }
    }
}

/// `text` split into its word blocks and the stretches between them, in
/// order: the blocks of the default modes, or of full mode.
pub fn split_matches(text: &str, cut_all: bool) -> (r: Vec<SplitState>)
    ensures
        r@.len() == runs_from(text@, block_class(cut_all), 0).len(),
        forall|j: int| 0 <= j < r@.len() ==> {
            let run = runs_from(text@, block_class(cut_all), 0)[j];
            let piece = text@.subrange(run.0.0 as int, run.0.1 as int);
            match #[trigger] r@[j] {
                SplitState::Matched(t) => run.1 && t@ == piece && piece.len() > 0,
                SplitState::Unmatched(t) => !run.1 && t@ == piece && piece.len() > 0,
            }
        },
{
    let s = chars_of(text);
    let n = s.len();
    let k = if cut_all { CharClass::HanAll } else { CharClass::Han };
    let ghost all = runs_from(s@, k, 0);
    let mut r: Vec<SplitState> = Vec::new();
    let mut i: usize = 0;
    while i < n
        invariant
            n == s@.len(),
            s@ == text@,
            k == block_class(cut_all),
            all == runs_from(s@, k, 0),
            i <= n,
            r@.len() + runs_from(s@, k, i as int).len() == all.len(),
            forall|j: int| 0 <= j < runs_from(s@, k, i as int).len() ==> #[trigger] runs_from(s@, k, i as int)[j] == all[r@.len() + j],
            forall|j: int| 0 <= j < r@.len() ==> {
                let run = all[j];
                let piece = s@.subrange(run.0.0 as int, run.0.1 as int);
                match #[trigger] r@[j] {
                    SplitState::Matched(t) => run.1 && t@ == piece && piece.len() > 0,
                    SplitState::Unmatched(t) => !run.1 && t@ == piece && piece.len() > 0,
                }
            },
        decreases n - i,
    {
        let f = class_has(k, s[i]);
        let e = find_run_end(&s, i, n, k, f);
        proof { lemma_run_end(s@, i as int, n as int, k, f); }
        let t = string_of(s.as_slice(), i, e);
        let ghost rest = runs_from(s@, k, i as int);
        let ghost next = runs_from(s@, k, e as int);
        assert(rest == seq![((i, e), f)] + next);
        assert(rest[0] == ((i, e), f));
        assert(all[r@.len() as int] == ((i, e), f));
        if f {
            r.push(SplitState::Matched(t));
        } else {
            r.push(SplitState::Unmatched(t));
        }
        assert forall|j: int| 0 <= j < next.len() implies #[trigger] next[j] == all[r@.len() + j] by {
            assert(rest[j + 1] == next[j]);
        }
        i = e;
    }
    r
}

} // verus!
