//! What keyword extraction is configured with: stop words, a least keyword
//! length and whether unknown runs go to the model; and the splitting of
//! text into white-space separated fields.
use vstd::prelude::*;
use crate::text::{CharClass, run_end, lemma_run_end, find_run_end, chars_of, string_of, views};
use crate::userdict::{parse_usize, parse_usize_of};

verus! {

/// The fields of `t` from position `p` on: the runs between white space.
pub open spec fn fields_from(t: Seq<char>, p: int) -> Seq<Seq<char>>
    decreases t.len() - p,
{
    let a = run_end(t, p, t.len() as int, CharClass::Space, true);
    if p < 0 || a < p || a >= t.len() {
        seq![]
    } else {
        let b = run_end(t, a, t.len() as int, CharClass::Space, false);
        if b <= a || b > t.len() {
            seq![]
        } else {
            seq![t.subrange(a, b)] + fields_from(t, b)
        }
    }
}

/// The white-space separated fields of `t`.
pub open spec fn fields(t: Seq<char>) -> Seq<Seq<char>> {
    fields_from(t, 0)
}

/// The fields of `s`, as strings.
pub fn split_fields(s: &str) -> (r: Vec<String>)
    ensures
        views(r@) == fields(s@),
{
    let t = chars_of(s);
    let n = t.len();
    let mut r: Vec<String> = Vec::new();
    let mut p: usize = 0;
    while p < n
        invariant
            n == t@.len(),
            t@ == s@,
            p <= n,
            views(r@) + fields_from(t@, p as int) == fields(t@),
        ensures
            views(r@) == fields(t@),
        decreases n - p,
    {
        let a = find_run_end(&t, p, n, CharClass::Space, true);
        proof { lemma_run_end(t@, p as int, n as int, CharClass::Space, true); }
        if a >= n {
            assert(fields_from(t@, p as int) == Seq::<Seq<char>>::empty());
            assert(views(r@) =~= fields(t@));
            break;
        }
        let b = find_run_end(&t, a, n, CharClass::Space, false);
        proof {
            lemma_run_end(t@, a as int, n as int, CharClass::Space, false);
            assert(!crate::text::in_class(CharClass::Space, t@[a as int]));
        }
        let w = string_of(t.as_slice(), a, b);
        let ghost r0 = r@;
        r.push(w);
        assert(views(r@) =~= views(r0).push(w@));
        assert(views(r@) + fields_from(t@, b as int) =~= views(r0) + fields_from(t@, p as int));
        p = b;
    }
    r
}

/// The entries of a dictionary text handed out one at a time: each is
/// three white-space separated fields, a word, a frequency and a tag.
pub struct LoadDefault {
    words: Vec<String>,
    pos: usize,
}

impl LoadDefault {
    /// The fields not handed out yet.
    pub closed spec fn view(&self) -> Seq<Seq<char>> {
        views(self.words@).subrange(self.pos as int, self.words@.len() as int)
    }

    pub closed spec fn wf(&self) -> bool {
        self.pos <= self.words@.len()
    }

    pub fn new(s: &str) -> (r: Self)
        ensures
            r.wf(),
            r@ == fields(s@),
    {
        let words = split_fields(s);
        let r = LoadDefault { words, pos: 0 };
        assert(r@ =~= fields(s@));
        r
    }

    /// The next entry: a word, its frequency and its tag, read from the
    /// next three fields. Where fields are left, there must be three and the
    /// second must be an integer.
    pub fn next(&mut self) -> (r: Option<(String, usize, String)>)
        requires
            old(self).wf(),
            old(self)@.len() > 0 ==> old(self)@.len() >= 3 && parse_usize(old(self)@[1]) is Some,
        ensures
            final(self).wf(),
            old(self)@.len() == 0 ==> r is None && final(self)@.len() == 0,
            old(self)@.len() > 0 ==> (r matches Some(e) && e.0@ == old(self)@[0] && Some(e.1 as nat) == parse_usize(
                old(self)@[1],
            ) && e.2@ == old(self)@[2] && final(self)@ == old(self)@.subrange(3, old(self)@.len() as int)),
    {
        if self.pos < self.words.len() {
            let ghost v0 = self@;
            assert(v0[0] == self.words@[self.pos as int]@);
            assert(v0[1] == self.words@[self.pos + 1]@);
            assert(v0[2] == self.words@[self.pos + 2]@);
            let word = self.words[self.pos].clone();
            let cs = chars_of(self.words[self.pos + 1].as_str());
            let f = parse_usize_of(&cs, 0, cs.len());
            assert(cs@.subrange(0, cs@.len() as int) =~= cs@);
            let tag = self.words[self.pos + 2].clone();
            self.pos = self.pos + 3;
            assert(self@ =~= v0.subrange(3, v0.len() as int));
            match f {
                Some(freq) => Some((word, freq, tag)),
                None => None,
            }
        } else {
            None
        }
    }
}

/// The stop words that a configuration starts with.
pub const DEFAULT_STOP_WORDS: &'static str = "the of is and to in that we for an are by be as on with can if from which you it this then at have all not one has or";

/// A name for what `str::to_lowercase` gives: the lower-case form of each
/// character, by Unicode's rules.
pub uninterp spec fn lower_of(s: Seq<char>) -> Seq<char>;

/// Relies on `str::to_lowercase`: the result depends on the characters alone.
#[verifier::external_body]
fn lowercase(s: &str) -> (r: String)
    ensures
        r@ == lower_of(s@),
{
    s.to_lowercase()
}

/// The set of the views of some strings.
pub open spec fn word_set(ws: Seq<String>) -> Set<Seq<char>> {
    Set::new(|w: Seq<char>| exists|i: int| 0 <= i < ws.len() && ws[i]@ == w)
}

/// One of the first `i` strings of `ws` has the view `w`.
pub open spec fn seen_before(ws: Seq<String>, i: int, w: Seq<char>) -> bool {
    exists|j: int| 0 <= j < i && (#[trigger] ws[j])@ == w
}

/// Whether `ws` holds a string whose view is `w`.
fn holds(ws: &Vec<String>, w: &String) -> (r: bool)
    ensures
        r == word_set(ws@).contains(w@),
{
    let mut i: usize = 0;
    while i < ws.len()
        invariant
            i <= ws@.len(),
            forall|k: int| 0 <= k < i ==> ws@[k]@ != w@,
        decreases ws@.len() - i,
    {
        if ws[i] == *w {
            return true;
        }
        i = i + 1;
    }
    false
}

/// Creates a KeywordExtractConfig state that contains filter criteria as
/// well as segmentation configuration for use by keyword extraction
/// implementations.
#[derive(Debug, Clone, PartialEq, Eq)]
pub struct KeywordExtractConfig {
    stop_words: Vec<String>,
    min_keyword_length: usize,
    use_hmm: bool,
}

/// The settings that a `KeywordExtractConfig` is built from.
#[derive(Debug, Clone)]
pub struct KeywordExtractConfigBuilder {
    stop_words: Vec<String>,
    min_keyword_length: usize,
    use_hmm: bool,
}

impl KeywordExtractConfig {
    /// The stop words.
    pub closed spec fn stop_set(&self) -> Set<Seq<char>> {
        word_set(self.stop_words@)
    }

    pub closed spec fn min_len(&self) -> nat {
        self.min_keyword_length as nat
    }

    pub closed spec fn hmm_flag(&self) -> bool {
        self.use_hmm
    }

    /// Creates a new [`KeywordExtractConfigBuilder`] with default values.
    pub fn builder() -> (r: KeywordExtractConfigBuilder)
        ensures
            r.stop_set() == default_stop_set(),
            r.min_len() == 2,
            !r.hmm_flag(),
    {
        KeywordExtractConfigBuilder::new()
    }

    /// Gets the current set of stop words.
    pub fn stop_words(&self) -> (r: &Vec<String>)
        ensures
            word_set(r@) == self.stop_set(),
    {
        &self.stop_words
    }

    /// Returns whether HMM is used during segmentation.
    pub fn use_hmm(&self) -> (r: bool)
        ensures
            r == self.hmm_flag(),
    {
        self.use_hmm
    }

    /// Gets the minimum number of Unicode Scalar Values required per keyword.
    pub fn min_keyword_length(&self) -> (r: usize)
        ensures
            r == self.min_len(),
    {
        self.min_keyword_length
    }

    /// Whether `s`, whose lower-case form is `lowered`, may be a keyword: it
    /// is long enough and its lower-case form is no stop word.
    pub fn filter_lowered(&self, s: &str, lowered: &String) -> (r: bool)
        ensures
            r == (s@.len() >= self.min_len() && !self.stop_set().contains(lowered@)),
    {
        let n = chars_of(s).len();
        n >= self.min_keyword_length && !holds(&self.stop_words, lowered)
    }

    /// Whether `s` may be a keyword: it is long enough and its lower-case
    /// form is no stop word.
    pub fn filter(&self, s: &str) -> (r: bool)
        ensures
            r == (s@.len() >= self.min_len() && !self.stop_set().contains(lower_of(s@))),
    {
        let lowered = lowercase(s);
        self.filter_lowered(s, &lowered)
    }

    /// The same test as `filter`.
    pub fn is_keyword(&self, s: &str) -> (r: bool)
        ensures
            r == (s@.len() >= self.min_len() && !self.stop_set().contains(lower_of(s@))),
    {
        self.filter(s)
    }
}

/// The default stop words, as a set.
pub open spec fn default_stop_set() -> Set<Seq<char>> {
    Set::new(|w: Seq<char>| fields(DEFAULT_STOP_WORDS@).contains(w))
}

/// Whether `s` may be a keyword under the default configuration: it has at
/// least two characters and its lower-case form is no default stop word.
pub fn filter(s: &str) -> (r: bool)
    ensures
        r == (s@.len() >= 2 && !default_stop_set().contains(lower_of(s@))),
{
    KeywordExtractConfig::new().filter(s)
}

impl KeywordExtractConfigBuilder {
    /// The default stop words.
    pub fn default_stop_words() -> (r: Vec<String>)
        ensures
            word_set(r@) == default_stop_set(),
    {
        KeywordExtractConfigBuilder::new().stop_words
    }

    pub closed spec fn stop_set(&self) -> Set<Seq<char>> {
        word_set(self.stop_words@)
    }

    pub closed spec fn min_len(&self) -> nat {
        self.min_keyword_length as nat
    }

    pub closed spec fn hmm_flag(&self) -> bool {
        self.use_hmm
    }

    /// The default settings: the default stop words, a least length of 2,
    /// and no model.
    pub fn new() -> (r: Self)
        ensures
            r.stop_set() == default_stop_set(),
            r.min_len() == 2,
            !r.hmm_flag(),
    {
        let stop_words = split_fields(DEFAULT_STOP_WORDS);
        let r = KeywordExtractConfigBuilder { stop_words, min_keyword_length: 2, use_hmm: false };
        proof {
            let fs = fields(DEFAULT_STOP_WORDS@);
            assert forall|w: Seq<char>| r.stop_set().contains(w) <==> fs.contains(w) by {
                if r.stop_set().contains(w) {
                    let i = choose|i: int| 0 <= i < r.stop_words@.len() && r.stop_words@[i]@ == w;
                    assert(views(r.stop_words@)[i] == w);
                }
                if fs.contains(w) {
                    let i = choose|i: int| 0 <= i < fs.len() && fs[i] == w;
                    assert(views(r.stop_words@)[i] == r.stop_words@[i]@);
                }
            }
            assert(r.stop_set() =~= Set::new(|w: Seq<char>| fs.contains(w)));
        }
        r
    }

    /// Builds the [`KeywordExtractConfig`] with the current configuration.
    pub fn build(self) -> (r: KeywordExtractConfig)
        ensures
            r.stop_set() == self.stop_set(),
            r.min_len() == self.min_len(),
            r.hmm_flag() == self.hmm_flag(),
    {
        KeywordExtractConfig {
            stop_words: self.stop_words,
            min_keyword_length: self.min_keyword_length,
            use_hmm: self.use_hmm,
        }
    }

    /// If set, when segment cannot be found in the dictionary, fall back to HMM model.
    pub fn use_hmm(self, yes: bool) -> (r: Self)
        ensures
            r.stop_set() == self.stop_set(),
            r.min_len() == self.min_len(),
            r.hmm_flag() == yes,
    {
        KeywordExtractConfigBuilder { use_hmm: yes, ..self }
    }

    /// Sets the length that any segments less than it will not be considered as a keyword.
    pub fn min_keyword_length(self, length: usize) -> (r: Self)
        ensures
            r.stop_set() == self.stop_set(),
            r.min_len() == length,
            r.hmm_flag() == self.hmm_flag(),
    {
        KeywordExtractConfigBuilder { min_keyword_length: length, ..self }
    }

    /// Add a new stop word.
    pub fn add_stop_word(self, word: String) -> (r: Self)
        ensures
            r.stop_set() == self.stop_set().insert(word@),
            r.min_len() == self.min_len(),
            r.hmm_flag() == self.hmm_flag(),
    {
        let mut stop_words = self.stop_words;
        let ghost before = stop_words@;
        if !holds(&stop_words, &word) {
            stop_words.push(word);
            proof {
                assert forall|w: Seq<char>| word_set(stop_words@).contains(w) <==> word_set(before).insert(word@).contains(w) by {
                    if word_set(before).contains(w) {
                        let i = choose|i: int| 0 <= i < before.len() && before[i]@ == w;
                        assert(stop_words@[i] == before[i]);
                    }
                    if word_set(stop_words@).contains(w) {
                        let i = choose|i: int| 0 <= i < stop_words@.len() && stop_words@[i]@ == w;
                        if i < before.len() {
                            assert(stop_words@[i] == before[i]);
                        }
                    }
                    if w == word@ {
                        assert(stop_words@[before.len() as int]@ == w);
                    }
                }
            }
        }
        let r = KeywordExtractConfigBuilder { stop_words, min_keyword_length: self.min_keyword_length, use_hmm: self.use_hmm };
        assert(r.stop_set() =~= word_set(before).insert(word@));
        r
    }

    /// Remove a stop word; removing one that is not there changes nothing.
    pub fn remove_stop_word(self, word: &str) -> (r: Self)
        ensures
            r.stop_set() == self.stop_set().remove(word@),
            r.min_len() == self.min_len(),
            r.hmm_flag() == self.hmm_flag(),
    {
        let ws = self.stop_words;
        let target = crate::text::string_from(chars_of(word).as_slice());
        let mut kept: Vec<String> = Vec::new();
        let mut i: usize = 0;
        while i < ws.len()
            invariant
                i <= ws@.len(),
                target@ == word@,
                forall|w: Seq<char>| word_set(kept@).contains(w) <==> (seen_before(ws@, i as int, w) && w != word@),
            decreases ws@.len() - i,
        {
            let ghost k0 = kept@;
            let same = ws[i] == target;
            if !same {
                kept.push(ws[i].clone());
            }
            proof {
                assert forall|w: Seq<char>| word_set(kept@).contains(w) <==> (seen_before(ws@, i + 1, w) && w != word@) by {
                    if word_set(k0).contains(w) {
                        let j = choose|j: int| 0 <= j < k0.len() && k0[j]@ == w;
                        assert(kept@[j] == k0[j]);
                    }
                    if word_set(kept@).contains(w) {
                        let j = choose|j: int| 0 <= j < kept@.len() && kept@[j]@ == w;
                        if j < k0.len() {
                            assert(kept@[j] == k0[j]);
                        }
                    }
                    if !same && ws@[i as int]@ == w {
                        assert(kept@[k0.len() as int]@ == w);
                    }
                    if seen_before(ws@, i + 1, w) {
                        let j = choose|j: int| 0 <= j < i + 1 && (#[trigger] ws@[j])@ == w;
                        if j < i {
                            assert(seen_before(ws@, i as int, w));
                        }
                    }
                    if seen_before(ws@, i as int, w) {
                        let j = choose|j: int| 0 <= j < i && (#[trigger] ws@[j])@ == w;
                        assert(seen_before(ws@, i + 1, w));
                    }
                    if ws@[i as int]@ == w {
                        assert(seen_before(ws@, i + 1, w));
                    }
                }
            }
            i = i + 1;
        }
        assert forall|w: Seq<char>| seen_before(ws@, ws@.len() as int, w) <==> word_set(ws@).contains(w) by {
            if seen_before(ws@, ws@.len() as int, w) {
                let j = choose|j: int| 0 <= j < ws@.len() && (#[trigger] ws@[j])@ == w;
            }
            if word_set(ws@).contains(w) {
                let j = choose|j: int| 0 <= j < ws@.len() && ws@[j]@ == w;
                assert(seen_before(ws@, ws@.len() as int, w));
            }
        }
        let r = KeywordExtractConfigBuilder { stop_words: kept, min_keyword_length: self.min_keyword_length, use_hmm: self.use_hmm };
        assert(r.stop_set() =~= word_set(ws@).remove(word@));
        r
    }

    /// Replace all stop words with new stop words set.
    pub fn set_stop_words(self, stop_words: Vec<String>) -> (r: Self)
        ensures
            r.stop_set() == word_set(stop_words@),
            r.min_len() == self.min_len(),
            r.hmm_flag() == self.hmm_flag(),
    {
        KeywordExtractConfigBuilder { stop_words, ..self }
    }
}

impl KeywordExtractConfig {
    /// The configuration with the default settings.
    pub fn new() -> (r: Self)
        ensures
            r.stop_set() == default_stop_set(),
            r.min_len() == 2,
            !r.hmm_flag(),
    {
        KeywordExtractConfigBuilder::new().build()
    }
}

/// Text rank keywords extraction settings: the span of the co-occurrence
/// window and the configuration.
#[derive(Debug)]
pub struct TextRank {
    span: usize,
    config: KeywordExtractConfig,
}

impl TextRank {
    pub closed spec fn span_spec(&self) -> nat {
        self.span as nat
    }

    pub closed spec fn config_spec(&self) -> KeywordExtractConfig {
        self.config
    }

    /// Creates an TextRank.
    pub fn new(span: usize, config: KeywordExtractConfig) -> (r: Self)
        ensures
            r.span_spec() == span,
            r.config_spec() == config,
    {
        TextRank { span, config }
    }

    /// The span of the co-occurrence window.
    pub fn span(&self) -> (r: usize)
        ensures
            r == self.span_spec(),
    {
        self.span
    }

    /// The configuration.
    pub fn config(&self) -> (r: &KeywordExtractConfig)
        ensures
            *r == self.config_spec(),
    {
        &self.config
    }
}

} // verus!
