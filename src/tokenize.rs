//! The public ways to cut a text: into words, into all words, for search,
//! into positioned tokens, and into tagged words.
use vstd::prelude::*;
use crate::blocks::cut_spans;
use crate::jieba::{Dict, Jieba, freq_in};
use crate::text::{unmixed, is_white_space, Span, tiles, shift, pieces, views, chars_of, words_of, string_of, push_char,
    lemma_tiles_flatten, lemma_tiles_bounds, ascii_alnum, ascii_digit, is_ascii_alnum, is_ascii_digit};

verus! {

/// How `tokenize` reports words.
#[derive(Debug, Clone, Copy, PartialEq, Eq, Structural)]
pub enum TokenizeMode {
    /// Default mode
    Default,
    /// Search mode
    Search,
}

/// A Token
#[derive(Debug, Clone, PartialEq, Eq, Hash)]
pub struct Token {
    /// Word of the token
    pub word: String,
    /// Unicode start position of the token
    pub start: usize,
    /// Unicode end position of the token
    pub end: usize,
}

/// A tagged word
#[derive(Debug, Clone, PartialEq, Eq, Hash)]
pub struct Tag {
    /// Word
    pub word: String,
    /// Word tag
    pub tag: String,
}

/// The spans `(i, i + g)` of `w` from `i` on whose text is a word of `d`.
pub open spec fn grams_from(d: Dict, w: Seq<char>, g: int, i: int) -> Seq<Span>
    decreases w.len() - i,
{
    if i < 0 || g <= 0 || i + g > w.len() {
        seq![]
    } else {
        let here = if freq_in(d, w.subrange(i, i + g)) > 0 {
            seq![(i as usize, (i + g) as usize)]
        } else {
            seq![]
        };
        here + grams_from(d, w, g, i + 1)
    }
}

/// The words inside `w` that search mode adds before it: its two-character
/// words if it has more than two characters, then its three-character words
/// if it has more than three.
pub open spec fn sub_grams(d: Dict, w: Seq<char>) -> Seq<Span> {
    (if w.len() > 2 {
        grams_from(d, w, 2, 0)
    } else {
        seq![]
    }) + (if w.len() > 3 {
        grams_from(d, w, 3, 0)
    } else {
        seq![]
    })
}

/// Search mode from the `k`-th word on: each word's sub-words, then the word.
pub open spec fn search_from(d: Dict, s: Seq<char>, sp: Seq<Span>, k: int) -> Seq<Span>
    decreases sp.len() - k,
{
    if k < 0 || k >= sp.len() {
        seq![]
    } else {
        let p = sp[k];
        shift(sub_grams(d, s.subrange(p.0 as int, p.1 as int)), p.0 as int) + seq![p] + search_from(d, s, sp, k + 1)
    }
}

/// `w` is not empty and all its characters are ASCII digits.
pub open spec fn is_number(w: Seq<char>) -> bool {
    w.len() > 0 && forall|i: int| 0 <= i < w.len() ==> is_ascii_digit(#[trigger] w[i])
}

/// `w` is not empty and all its characters are ASCII letters or digits.
pub open spec fn is_ascii_word(w: Seq<char>) -> bool {
    w.len() > 0 && forall|i: int| 0 <= i < w.len() ==> is_ascii_alnum(#[trigger] w[i])
}

/// The tag of `w`: its dictionary tag where it is a word with a positive
/// frequency; else `m` where all its characters are ASCII digits, `eng`
/// where all are ASCII letters or digits and one is a letter, and `x`
/// otherwise.
pub open spec fn tag_of(d: Dict, w: Seq<char>) -> Seq<char> {
    if freq_in(d, w) > 0 {
        d[w].1
    } else if is_number(w) {
        seq!['m']
    } else if is_ascii_word(w) {
        seq!['e', 'n', 'g']
    } else {
        seq!['x']
    }
}

/// Every sub-word that search mode adds is a word of the dictionary, lies
/// inside its parent word, and is two or three characters long; the parent
/// comes right after its sub-words.
pub proof fn lemma_search_structure(d: Dict, s: Seq<char>, sp: Seq<Span>, k: int)
    requires
        0 <= k < sp.len(),
        sp[k].0 <= sp[k].1 <= s.len(),
    ensures
        search_from(d, s, sp, k) == shift(sub_grams(d, s.subrange(sp[k].0 as int, sp[k].1 as int)), sp[k].0 as int)
            + seq![sp[k]] + search_from(d, s, sp, k + 1),
        forall|j: int| 0 <= j < sub_grams(d, s.subrange(sp[k].0 as int, sp[k].1 as int)).len() ==> {
            let q = #[trigger] sub_grams(d, s.subrange(sp[k].0 as int, sp[k].1 as int))[j];
            &&& q.0 < q.1 <= sp[k].1 - sp[k].0
            &&& q.1 - q.0 == 2 || q.1 - q.0 == 3
            &&& freq_in(d, s.subrange(sp[k].0 + q.0, sp[k].0 + q.1)) > 0
        },
{
    let w = s.subrange(sp[k].0 as int, sp[k].1 as int);
    let a = if w.len() > 2 { grams_from(d, w, 2, 0) } else { seq![] };
    let b = if w.len() > 3 { grams_from(d, w, 3, 0) } else { seq![] };
    if w.len() > 2 {
        lemma_grams_from(d, w, 2, 0);
    }
    if w.len() > 3 {
        lemma_grams_from(d, w, 3, 0);
    }
    assert forall|j: int| 0 <= j < sub_grams(d, w).len() implies {
        let q = #[trigger] sub_grams(d, w)[j];
        &&& q.0 < q.1 <= sp[k].1 - sp[k].0
        &&& q.1 - q.0 == 2 || q.1 - q.0 == 3
        &&& freq_in(d, s.subrange(sp[k].0 + q.0, sp[k].0 + q.1)) > 0
    } by {
        let q = sub_grams(d, w)[j];
        if j < a.len() {
            assert(q == a[j]);
        } else {
            assert(q == b[j - a.len()]);
        }
        assert(s.subrange(sp[k].0 + q.0, sp[k].0 + q.1) =~= w.subrange(q.0 as int, q.1 as int));
    }
}

proof fn lemma_grams_from(d: Dict, w: Seq<char>, g: int, i: int)
    requires
        0 <= i,
        g > 0,
        w.len() <= usize::MAX,
    ensures
        forall|j: int| 0 <= j < grams_from(d, w, g, i).len() ==> {
            let q = #[trigger] grams_from(d, w, g, i)[j];
            &&& i <= q.0 && q.1 == q.0 + g && q.1 <= w.len()
            &&& freq_in(d, w.subrange(q.0 as int, q.1 as int)) > 0
        },
    decreases w.len() - i,
{
    if i + g <= w.len() {
        lemma_grams_from(d, w, g, i + 1);
        let here = if freq_in(d, w.subrange(i, i + g)) > 0 {
            seq![(i as usize, (i + g) as usize)]
        } else {
            seq![]
        };
        let rest = grams_from(d, w, g, i + 1);
        assert forall|j: int| 0 <= j < grams_from(d, w, g, i).len() implies {
            let q = #[trigger] grams_from(d, w, g, i)[j];
            &&& i <= q.0 && q.1 == q.0 + g && q.1 <= w.len()
            &&& freq_in(d, w.subrange(q.0 as int, q.1 as int)) > 0
        } by {
            if j < here.len() {
                assert(grams_from(d, w, g, i)[j] == here[j]);
            } else {
                assert(grams_from(d, w, g, i)[j] == rest[j - here.len()]);
            }
        }
    }
}

impl Jieba {
    /// Appends the spans `(a + i, a + i + g)` of the `g`-character words inside `s[a..b]`.
    fn push_grams(&self, s: &Vec<char>, a: usize, b: usize, g: usize, out: &mut Vec<Span>)
        requires
            self.wf(),
            a <= b <= s@.len(),
            1 <= g <= 3,
        ensures
            final(out)@ == old(out)@ + shift(grams_from(self.dict(), s@.subrange(a as int, b as int), g as int, 0), a as int),
    {
        let ghost w = s@.subrange(a as int, b as int);
        let ghost d = self.dict();
        let ghost o0 = out@;
        let mut i: usize = 0;
        while g <= b - a - i
            invariant
                self.wf(),
                d == self.dict(),
                a <= b <= s@.len(),
                1 <= g <= 3,
                w == s@.subrange(a as int, b as int),
                i <= b - a,
                out@ + shift(grams_from(d, w, g as int, i as int), a as int) == o0 + shift(grams_from(d, w, g as int, 0), a as int),
            decreases b - a - i,
        {
            let gram = string_of(s.as_slice(), a + i, a + i + g);
            assert(gram@ =~= w.subrange(i as int, i + g));
            let f = self.get_word_freq(gram.as_str(), 0);
            let ghost o1 = out@;
            if f > 0 {
                out.push((a + i, a + i + g));
            }
            proof {
                let here = if freq_in(d, w.subrange(i as int, i + g)) > 0 {
                    seq![(i as usize, (i + g) as usize)]
                } else {
                    seq![]
                };
                assert(grams_from(d, w, g as int, i as int) == here + grams_from(d, w, g as int, i + 1));
                assert(shift(here + grams_from(d, w, g as int, i + 1), a as int) =~= shift(here, a as int) + shift(
                    grams_from(d, w, g as int, i + 1), a as int));
                assert(out@ =~= o1 + shift(here, a as int));
            }
            i = i + 1;
        }
        proof {
            assert(grams_from(d, w, g as int, i as int) == Seq::<Span>::empty());
        }
        assert(out@ =~= o0 + shift(grams_from(d, w, g as int, 0), a as int));
    }

    /// The spans of search mode for the words `sp` of `s`.
    fn search_spans_of(&self, s: &Vec<char>, sp: &Vec<Span>) -> (r: Vec<Span>)
        requires
            self.wf(),
            forall|k: int| 0 <= k < sp@.len() ==> (#[trigger] sp@[k]).0 < sp@[k].1 <= s@.len(),
        ensures
            r@ == search_from(self.dict(), s@, sp@, 0),
    {
        let ghost d = self.dict();
        let mut out: Vec<Span> = Vec::new();
        let mut k: usize = 0;
        while k < sp.len()
            invariant
                self.wf(),
                d == self.dict(),
                k <= sp@.len(),
                forall|k2: int| 0 <= k2 < sp@.len() ==> (#[trigger] sp@[k2]).0 < sp@[k2].1 <= s@.len(),
                out@ + search_from(d, s@, sp@, k as int) == search_from(d, s@, sp@, 0),
            decreases sp@.len() - k,
        {
            let p = sp[k];
            let ghost o0 = out@;
            let ghost w = s@.subrange(p.0 as int, p.1 as int);
            let width = p.1 - p.0;
            if width > 2 {
                self.push_grams(s, p.0, p.1, 2, &mut out);
            }
            let ghost o1 = out@;
            if width > 3 {
                self.push_grams(s, p.0, p.1, 3, &mut out);
            }
            out.push(p);
            proof {
                let a = if w.len() > 2 { grams_from(d, w, 2, 0) } else { seq![] };
                let b = if w.len() > 3 { grams_from(d, w, 3, 0) } else { seq![] };
                assert(o1 == o0 + shift(a, p.0 as int));
                assert(shift(a + b, p.0 as int) =~= shift(a, p.0 as int) + shift(b, p.0 as int));
                assert(out@ + search_from(d, s@, sp@, k + 1) =~= o0 + search_from(d, s@, sp@, k as int));
            }
            k = k + 1;
        }
        assert(out@ =~= search_from(d, s@, sp@, 0));
        out
    }

    /// Cut the input text
    ///
    /// `hmm`: enable HMM or not
    pub fn cut(&self, sentence: &str, hmm: bool) -> (r: Vec<String>)
        requires
            self.wf(),
        ensures
            views(r@) == pieces(sentence@, cut_spans(self.dict(), self.total(), self.model(), sentence@, false, hmm)),
            views(r@).flatten() == sentence@,
            forall|k: int| 0 <= k < r@.len() ==> (#[trigger] r@[k])@.len() > 0,
            forall|k: int, a: int, b: int|
                #![trigger is_white_space(r@[k]@[a]), is_white_space(r@[k]@[b])]
                0 <= k < r@.len() && 0 <= a < r@[k]@.len() && 0 <= b < r@[k]@.len() && is_white_space(r@[k]@[a])
                    ==> is_white_space(r@[k]@[b]),
    {
        let s = chars_of(sentence);
        let sp = self.cut_internal(&s, false, hmm);
        proof {
            lemma_tiles_bounds(sp@, 0, s@.len() as int);
            lemma_tiles_flatten(s@, sp@, 0, s@.len() as int);
            assert(s@.subrange(0, s@.len() as int) =~= s@);
        }
        let r = words_of(&s, &sp);
        proof {
            assert forall|k: int| 0 <= k < r@.len() implies (#[trigger] r@[k])@.len() > 0 by {
                assert(views(r@)[k] == r@[k]@);
                assert(sp@[k].0 < sp@[k].1);
            }
            assert forall|k: int, a: int, b: int|
                #![trigger is_white_space(r@[k]@[a]), is_white_space(r@[k]@[b])]
                0 <= k < r@.len() && 0 <= a < r@[k]@.len() && 0 <= b < r@[k]@.len() && is_white_space(r@[k]@[a])
                implies is_white_space(r@[k]@[b]) by {
                assert(views(r@)[k] == r@[k]@);
                let q = sp@[k];
                assert(r@[k]@ == s@.subrange(q.0 as int, q.1 as int));
                assert(r@[k]@[a] == s@[q.0 + a]);
                assert(r@[k]@[b] == s@[q.0 + b]);
                assert(unmixed(s@, q));
            }
        }
        r
    }

    /// Cut the input text, return all possible words
    pub fn cut_all(&self, sentence: &str) -> (r: Vec<String>)
        requires
            self.wf(),
        ensures
            views(r@) == pieces(sentence@, cut_spans(self.dict(), self.total(), self.model(), sentence@, true, false)),
    {
        let s = chars_of(sentence);
        let sp = self.cut_internal(&s, true, false);
        words_of(&s, &sp)
    }

    /// Cut the input text in search mode
    ///
    /// `hmm`: enable HMM or not
    pub fn cut_for_search(&self, sentence: &str, hmm: bool) -> (r: Vec<String>)
        requires
            self.wf(),
        ensures
            views(r@) == pieces(
                sentence@,
                search_from(self.dict(), sentence@, cut_spans(self.dict(), self.total(), self.model(), sentence@, false, hmm), 0),
            ),
            views(r@) == search_words_from(
                self.dict(),
                pieces(sentence@, cut_spans(self.dict(), self.total(), self.model(), sentence@, false, hmm)),
                0,
            ),
    {
        let s = chars_of(sentence);
        let sp = self.cut_internal(&s, false, hmm);
        let ss = self.search_spans_of(&s, &sp);
        proof {
            lemma_search_bounds(self.dict(), s@, sp@, 0);
            lemma_search_words(self.dict(), s@, sp@, 0);
        }
        words_of(&s, &ss)
    }

    /// Tokenize
    ///
    /// `mode`: tokenize mode
    ///
    /// `hmm`: enable HMM or not
    pub fn tokenize(&self, sentence: &str, mode: TokenizeMode, hmm: bool) -> (r: Vec<Token>)
        requires
            self.wf(),
        ensures
            ({
                let sp = cut_spans(self.dict(), self.total(), self.model(), sentence@, false, hmm);
                let tk = if mode == TokenizeMode::Default { sp } else { search_from(self.dict(), sentence@, sp, 0) };
                &&& r@.len() == tk.len()
                &&& forall|k: int| 0 <= k < r@.len() ==> {
                    &&& (#[trigger] r@[k]).start == tk[k].0
                    &&& r@[k].end == tk[k].1
                    &&& r@[k].word@ == sentence@.subrange(tk[k].0 as int, tk[k].1 as int)
                }
            }),
            mode == TokenizeMode::Default ==> tiles(
                r@.map_values(|t: Token| (t.start, t.end)),
                0,
                sentence@.len() as int,
            ),
    {
        let s = chars_of(sentence);
        let sp = self.cut_internal(&s, false, hmm);
        proof { lemma_tiles_bounds(sp@, 0, s@.len() as int); }
        let tk = match mode {
            TokenizeMode::Default => sp,
            TokenizeMode::Search => {
                let ss = self.search_spans_of(&s, &sp);
                proof { lemma_search_bounds(self.dict(), s@, sp@, 0); }
                ss
            },
        };
        let mut r: Vec<Token> = Vec::new();
        let mut k: usize = 0;
        while k < tk.len()
            invariant
                k <= tk@.len(),
                forall|k2: int| 0 <= k2 < tk@.len() ==> (#[trigger] tk@[k2]).0 <= tk@[k2].1 <= s@.len(),
                r@.len() == k,
                forall|k2: int| 0 <= k2 < k ==> {
                    &&& (#[trigger] r@[k2]).start == tk@[k2].0
                    &&& r@[k2].end == tk@[k2].1
                    &&& r@[k2].word@ == s@.subrange(tk@[k2].0 as int, tk@[k2].1 as int)
                },
            decreases tk@.len() - k,
        {
            let p = tk[k];
            let word = string_of(s.as_slice(), p.0, p.1);
            r.push(Token { word, start: p.0, end: p.1 });
            k = k + 1;
        }
        proof {
            if mode == TokenizeMode::Default {
                assert(r@.map_values(|t: Token| (t.start, t.end)) =~= sp@);
            }
        }
        r
    }

    /// The tag of the word `w`.
    fn tag_word(&self, w: &String) -> (r: String)
        requires
            self.wf(),
        ensures
            r@ == tag_of(self.dict(), w@),
    {
        match self.entry(w.as_str()) {
            Some((f, t)) => {
                if f > 0 {
                    return t;
                }
            },
            None => {},
        }
        let cs = chars_of(w.as_str());
        let mut digits = true;
        let mut alnum = true;
        let mut i: usize = 0;
        while i < cs.len()
            invariant
                i <= cs@.len(),
                cs@ == w@,
                digits == forall|k: int| 0 <= k < i ==> is_ascii_digit(#[trigger] cs@[k]),
                alnum == forall|k: int| 0 <= k < i ==> is_ascii_alnum(#[trigger] cs@[k]),
            decreases cs@.len() - i,
        {
            let c = cs[i];
            if !ascii_digit(c) {
                digits = false;
            }
            if !ascii_alnum(c) {
                alnum = false;
            }
            i = i + 1;
        }
        let nonempty = cs.len() > 0;
        let mut r = String::new();
        if nonempty && digits {
            push_char(&mut r, 'm');
        } else if nonempty && alnum {
            push_char(&mut r, 'e');
            push_char(&mut r, 'n');
            push_char(&mut r, 'g');
        } else {
            push_char(&mut r, 'x');
        }
        assert(r@ =~= tag_of(self.dict(), w@));
        r
    }

    /// Tag the input text
    ///
    /// `hmm`: enable HMM or not
    pub fn tag(&self, sentence: &str, hmm: bool) -> (r: Vec<Tag>)
        requires
            self.wf(),
        ensures
            ({
                let ws = pieces(sentence@, cut_spans(self.dict(), self.total(), self.model(), sentence@, false, hmm));
                &&& r@.len() == ws.len()
                &&& forall|k: int| 0 <= k < r@.len() ==> (#[trigger] r@[k]).word@ == ws[k] && r@[k].tag@ == tag_of(
                    self.dict(),
                    ws[k],
                )
            }),
    {
        let words = self.cut(sentence, hmm);
        let mut r: Vec<Tag> = Vec::new();
        let mut k: usize = 0;
        while k < words.len()
            invariant
                self.wf(),
                k <= words@.len(),
                r@.len() == k,
                forall|k2: int| 0 <= k2 < k ==> (#[trigger] r@[k2]).word@ == words@[k2]@ && r@[k2].tag@ == tag_of(
                    self.dict(),
                    words@[k2]@,
                ),
            decreases words@.len() - k,
        {
            let tag = self.tag_word(&words[k]);
            let word = words[k].clone();
            r.push(Tag { word, tag });
            k = k + 1;
        }
        proof {
            let ws = pieces(sentence@, cut_spans(self.dict(), self.total(), self.model(), sentence@, false, hmm));
            assert forall|k2: int| 0 <= k2 < r@.len() implies (#[trigger] r@[k2]).word@ == ws[k2] by {
                assert(views(words@)[k2] == words@[k2]@);
            }
        }
        r
    }
}

/// Search mode over words, from the `k`-th word of `ws` on: each word's
/// two-character words (if it has more than two characters), then its
/// three-character words (if it has more than three), each of positive
/// frequency and in the order they start, then the word itself.
pub open spec fn search_words_from(d: Dict, ws: Seq<Seq<char>>, k: int) -> Seq<Seq<char>>
    decreases ws.len() - k,
{
    if k < 0 || k >= ws.len() {
        seq![]
    } else {
        pieces(ws[k], sub_grams(d, ws[k])) + seq![ws[k]] + search_words_from(d, ws, k + 1)
    }
}

/// Search mode stated over spans and over words gives the same words.
pub proof fn lemma_search_words(d: Dict, s: Seq<char>, sp: Seq<Span>, k: int)
    requires
        0 <= k <= sp.len(),
        forall|k2: int| 0 <= k2 < sp.len() ==> (#[trigger] sp[k2]).0 < sp[k2].1 <= s.len(),
        s.len() <= usize::MAX,
    ensures
        pieces(s, search_from(d, s, sp, k)) == search_words_from(d, pieces(s, sp), k),
    decreases sp.len() - k,
{
    if k < sp.len() {
        lemma_search_words(d, s, sp, k + 1);
        lemma_search_structure(d, s, sp, k);
        let p = sp[k];
        let w = s.subrange(p.0 as int, p.1 as int);
        assert(pieces(s, sp)[k] == w);
        let g = sub_grams(d, w);
        let gs = shift(g, p.0 as int);
        let rest = search_from(d, s, sp, k + 1);
        assert(pieces(s, gs) =~= pieces(w, g)) by {
            assert forall|j: int| 0 <= j < g.len() implies #[trigger] pieces(s, gs)[j] == pieces(w, g)[j] by {
                let q = g[j];
                assert(q.0 < q.1 <= p.1 - p.0);
                assert(s.subrange(p.0 + q.0, p.0 + q.1) =~= w.subrange(q.0 as int, q.1 as int));
            }
        }
        assert(pieces(s, gs + seq![p] + rest) =~= pieces(s, gs) + seq![w] + pieces(s, rest));
    }
}

proof fn lemma_search_bounds(d: Dict, s: Seq<char>, sp: Seq<Span>, k: int)
    requires
        0 <= k <= sp.len(),
        forall|k2: int| 0 <= k2 < sp.len() ==> (#[trigger] sp[k2]).0 < sp[k2].1 <= s.len(),
        s.len() <= usize::MAX,
    ensures
        forall|j: int| 0 <= j < search_from(d, s, sp, k).len() ==> (#[trigger] search_from(d, s, sp, k)[j]).0
            < search_from(d, s, sp, k)[j].1 <= s.len(),
    decreases sp.len() - k,
{
    if k < sp.len() {
        lemma_search_bounds(d, s, sp, k + 1);
        lemma_search_structure(d, s, sp, k);
        let p = sp[k];
        let w = s.subrange(p.0 as int, p.1 as int);
        let g = shift(sub_grams(d, w), p.0 as int);
        let rest = search_from(d, s, sp, k + 1);
        assert forall|j: int| 0 <= j < search_from(d, s, sp, k).len() implies (#[trigger] search_from(d, s, sp, k)[j]).0
            < search_from(d, s, sp, k)[j].1 <= s.len() by {
            let all = search_from(d, s, sp, k);
            if j < g.len() {
                assert(all[j] == g[j]);
                let q = sub_grams(d, w)[j];
                assert(q.0 < q.1 <= p.1 - p.0);
            } else if j == g.len() {
                assert(all[j] == p);
            } else {
                assert(all[j] == rest[j - g.len() - 1]);
            }
        }
    }
}

} // verus!
