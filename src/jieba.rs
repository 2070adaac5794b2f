//! The segmenter's dictionary: words with a frequency and a tag, held in a
//! trie that maps each word to the index of its record.
use vstd::prelude::*;
use vstd::set::fold::is_fun_commutative;
use cedarwood::Cedar;
use crate::trie::{word_ids, enc_string, lemma_enc_storable, lemma_word_ids_insert};
use crate::text::push_char;
use crate::hmm::HmmModel;

verus! {

/// A word's record: how often it occurs and its part-of-speech tag.
pub struct Record {
    pub freq: usize,
    pub tag: String,
}

impl Record {
    pub fn new(freq: usize, tag: String) -> (r: Self)
        ensures
            r.freq == freq,
            r.tag == tag,
    {
        Record { freq, tag }
    }
}

/// The sum of the frequencies of some records.
pub open spec fn sum_freq(rs: Seq<Record>) -> int
    decreases rs.len(),
{
    if rs.len() == 0 {
        0
    } else {
        sum_freq(rs.drop_last()) + rs.last().freq
    }
}

proof fn lemma_sum_push(rs: Seq<Record>, r: Record)
    ensures
        sum_freq(rs.push(r)) == sum_freq(rs) + r.freq,
{
    assert(rs.push(r).drop_last() =~= rs);
}

proof fn lemma_sum_update(rs: Seq<Record>, i: int, r: Record)
    requires
        0 <= i < rs.len(),
    ensures
        sum_freq(rs.update(i, r)) == sum_freq(rs) - rs[i].freq + r.freq,
        rs[i].freq <= sum_freq(rs),
        sum_freq(rs) >= 0,
    decreases rs.len(),
{
    let ru = rs.update(i, r);
    if i == rs.len() - 1 {
        assert(ru.drop_last() =~= rs.drop_last());
        lemma_sum_nonneg(rs.drop_last());
    } else {
        assert(ru.drop_last() =~= rs.drop_last().update(i, r));
        lemma_sum_update(rs.drop_last(), i, r);
    }
}

proof fn lemma_sum_nonneg(rs: Seq<Record>)
    ensures
        sum_freq(rs) >= 0,
    decreases rs.len(),
{
    if rs.len() > 0 {
        lemma_sum_nonneg(rs.drop_last());
    }
}

/// A dictionary's contents: each word with its frequency and its tag.
pub type Dict = Map<Seq<char>, (nat, Seq<char>)>;

/// The frequency of `w` in `d`; 0 where `d` does not hold it.
pub open spec fn freq_in(d: Dict, w: Seq<char>) -> nat {
    if d.contains_key(w) {
        d[w].0
    } else {
        0
    }
}

/// Every non-empty proper prefix of a word of `d` is in `d` too.
pub open spec fn prefix_closed(d: Dict) -> bool {
    forall|w: Seq<char>, k: int|
        #![trigger d.contains_key(w), w.subrange(0, k)]
        d.contains_key(w) && 0 < k < w.len() ==> d.contains_key(w.subrange(0, k))
}

/// `d` with the prefixes of `w` shorter than `k` added where missing, with
/// frequency 0 and an empty tag.
pub open spec fn with_prefixes(d: Dict, w: Seq<char>, k: int) -> Dict {
    Map::new(
        |v: Seq<char>| d.contains_key(v) || (0 < v.len() < k && v == w.subrange(0, v.len() as int)),
        |v: Seq<char>| if d.contains_key(v) { d[v] } else { (0nat, Seq::<char>::empty()) },
    )
}

/// `d` after `w` is stored with frequency `f` and tag `tag`: the prefixes of
/// `w` that were missing come in with frequency 0 and an empty tag; a word
/// already present with a positive frequency keeps its tag.
pub open spec fn dict_insert(d: Dict, w: Seq<char>, f: nat, tag: Seq<char>) -> Dict {
    let grown = with_prefixes(d, w, w.len() as int);
    let entry = if d.contains_key(w) && d[w].0 > 0 { (f, d[w].1) } else { (f, tag) };
    grown.insert(w, entry)
}

/// Adds the frequency of a word of `d` to a running sum.
pub open spec fn add_freq(d: Dict) -> spec_fn(nat, Seq<char>) -> nat {
    |acc: nat, w: Seq<char>| acc + d[w].0
}

/// The sum of the frequencies of all words of `d`.
pub open spec fn dict_total(d: Dict) -> nat {
    d.dom().fold(0nat, add_freq(d))
}

proof fn lemma_add_freq_commutative(d: Dict)
    ensures
        is_fun_commutative(add_freq(d)),
{
    assert forall|a1: Seq<char>, a2: Seq<char>, b: nat| #[trigger] add_freq(d)(add_freq(d)(b, a1), a2) == add_freq(d)(
        add_freq(d)(b, a2),
        a1,
    ) by {}
}

/// Summing over `s` depends only on the frequencies of the words of `s`.
proof fn lemma_fold_agree(s: Set<Seq<char>>, d1: Dict, d2: Dict)
    requires
        s.finite(),
        forall|x: Seq<char>| #[trigger] s.contains(x) ==> d1[x].0 == d2[x].0,
    ensures
        s.fold(0nat, add_freq(d1)) == s.fold(0nat, add_freq(d2)),
    decreases s.len(),
{
    lemma_add_freq_commutative(d1);
    lemma_add_freq_commutative(d2);
    if s.len() == 0 {
        assert(s =~= Set::<Seq<char>>::empty());
        vstd::set::fold::lemma_fold_empty(0nat, add_freq(d1));
        vstd::set::fold::lemma_fold_empty(0nat, add_freq(d2));
    } else {
        let a = s.choose();
        assert(s.contains(a));
        let r = s.remove(a);
        lemma_fold_agree(r, d1, d2);
        assert(r.insert(a) =~= s);
        vstd::set::fold::lemma_fold_insert(r, 0nat, add_freq(d1), a);
        vstd::set::fold::lemma_fold_insert(r, 0nat, add_freq(d2), a);
    }
}

/// Storing `v` under `a` changes the sum by the change of `a`'s frequency.
proof fn lemma_dict_total_insert_one(d: Dict, a: Seq<char>, v: (nat, Seq<char>))
    requires
        d.dom().finite(),
    ensures
        d.insert(a, v).dom().finite(),
        dict_total(d.insert(a, v)) == dict_total(d) - freq_in(d, a) + v.0,
{
    lemma_add_freq_commutative(d);
    let d2 = d.insert(a, v);
    lemma_add_freq_commutative(d2);
    if d.contains_key(a) {
        let r = d.dom().remove(a);
        assert(r.insert(a) =~= d.dom());
        assert(d2.dom() =~= d.dom());
        lemma_fold_agree(r, d, d2);
        vstd::set::fold::lemma_fold_insert(r, 0nat, add_freq(d), a);
        vstd::set::fold::lemma_fold_insert(r, 0nat, add_freq(d2), a);
    } else {
        assert(d2.dom() =~= d.dom().insert(a));
        lemma_fold_agree(d.dom(), d, d2);
        vstd::set::fold::lemma_fold_insert(d.dom(), 0nat, add_freq(d2), a);
    }
}

/// Adding the missing prefixes, with frequency 0, keeps the sum.
proof fn lemma_with_prefixes_total(d: Dict, w: Seq<char>, k: int)
    requires
        d.dom().finite(),
        0 <= k <= w.len(),
    ensures
        with_prefixes(d, w, k).dom().finite(),
        dict_total(with_prefixes(d, w, k)) == dict_total(d),
    decreases k,
{
    if k <= 1 {
        assert(with_prefixes(d, w, k) =~= d);
    } else {
        lemma_with_prefixes_total(d, w, k - 1);
        let prev = with_prefixes(d, w, k - 1);
        let p = w.subrange(0, k - 1);
        if prev.contains_key(p) {
            assert forall|v: Seq<char>| with_prefixes(d, w, k).contains_key(v) <==> #[trigger] prev.contains_key(v) by {
                if v.len() == k - 1 && v == w.subrange(0, v.len() as int) {
                    assert(v == p);
                }
            }
            assert(with_prefixes(d, w, k) =~= prev);
        } else {
            assert(!d.contains_key(p));
            assert forall|v: Seq<char>| with_prefixes(d, w, k).contains_key(v) <==> #[trigger] prev.insert(
                p,
                (0nat, Seq::<char>::empty()),
            ).contains_key(v) by {
                if v.len() == k - 1 && v == w.subrange(0, v.len() as int) {
                    assert(v == p);
                }
                if v == p {
                    assert(p.len() == k - 1);
                    assert(p == w.subrange(0, p.len() as int));
                }
            }
            assert(with_prefixes(d, w, k) =~= prev.insert(p, (0nat, Seq::<char>::empty())));
            lemma_dict_total_insert_one(prev, p, (0nat, Seq::<char>::empty()));
        }
    }
}

/// Storing a word changes the sum of the frequencies by the change of its
/// own frequency.
pub proof fn lemma_dict_total_insert(d: Dict, w: Seq<char>, f: nat, tag: Seq<char>)
    requires
        d.dom().finite(),
    ensures
        dict_insert(d, w, f, tag).dom().finite(),
        dict_total(dict_insert(d, w, f, tag)) == dict_total(d) - freq_in(d, w) + f,
{
    let g = with_prefixes(d, w, w.len() as int);
    lemma_with_prefixes_total(d, w, w.len() as int);
    let entry = if d.contains_key(w) && d[w].0 > 0 { (f, d[w].1) } else { (f, tag) };
    lemma_dict_total_insert_one(g, w, entry);
    assert(freq_in(g, w) == freq_in(d, w));
}

/// The largest id a record may have: ids are stored in the trie as `i32`.
pub const MAX_RECORDS: usize = 0x7fff_ffff;

/// Jieba segmentation
pub struct Jieba {
    records: Vec<Record>,
    cedar: Cedar,
    total: usize,
    hmm: HmmModel,
}

impl Jieba {
    /// The words of the dictionary, with their frequencies and tags.
    pub closed spec fn dict(&self) -> Dict {
        Map::new(
            |w: Seq<char>| word_ids(self.cedar).contains_key(w),
            |w: Seq<char>|
                (
                    self.records@[word_ids(self.cedar)[w]].freq as nat,
                    self.records@[word_ids(self.cedar)[w]].tag@,
                ),
        )
    }

    /// The model that labels runs the dictionary does not know.
    pub closed spec fn model(&self) -> HmmModel {
        self.hmm
    }

    /// The sum of all frequencies.
    pub closed spec fn total(&self) -> nat {
        self.total as nat
    }

    /// The number of records held.
    pub closed spec fn num_records(&self) -> nat {
        self.records@.len()
    }

    /// The frequency of `w`; 0 where the dictionary does not hold it.
    pub open spec fn freq(&self, w: Seq<char>) -> nat {
        freq_in(self.dict(), w)
    }

    /// Well-formedness: ids point at records, distinct words have distinct
    /// records, no word is empty, prefixes of words are present, and the
    /// total is the sum of the frequencies.
    pub closed spec fn wf(&self) -> bool {
        let keys = word_ids(self.cedar);
        &&& self.records@.len() <= MAX_RECORDS
        &&& keys.dom().finite()
        &&& self.records@.len() == keys.dom().len()
        &&& forall|w: Seq<char>| #[trigger] keys.contains_key(w) ==> 0 <= keys[w] < self.records@.len()
        &&& forall|w: Seq<char>| #[trigger] keys.contains_key(w) ==> w.len() > 0
        &&& forall|w1: Seq<char>, w2: Seq<char>|
            keys.contains_key(w1) && keys.contains_key(w2) && #[trigger] keys[w1] == #[trigger] keys[w2]
                ==> w1 == w2
        &&& prefix_closed(self.dict())
        &&& self.total == sum_freq(self.records@)
        &&& self.total == dict_total(self.dict())
        &&& self.hmm.wf()
    }

    /// There is one record for each word.
    pub proof fn lemma_num_records(&self)
        requires
            self.wf(),
        ensures
            self.dict().dom().finite(),
            self.num_records() == self.dict().dom().len(),
    {
        assert(self.dict().dom() =~= word_ids(self.cedar).dom());
    }

    /// Every multi-character word has each of its proper prefixes in the
    /// dictionary, whatever words were added.
    pub proof fn lemma_prefix_closed(&self)
        requires
            self.wf(),
        ensures
            forall|w: Seq<char>, k: int|
                #![trigger self.dict().contains_key(w), w.subrange(0, k)]
                self.dict().contains_key(w) && 0 < k < w.len() ==> self.dict().contains_key(
                    w.subrange(0, k),
                ),
    {
    }

    /// The total is the sum of the frequencies of all words.
    pub proof fn lemma_total_is_sum(&self)
        requires
            self.wf(),
        ensures
            self.total() == dict_total(self.dict()),
    {
    }

    /// No word's frequency exceeds the total.
    pub proof fn lemma_freq_le_total(&self, w: Seq<char>)
        requires
            self.wf(),
        ensures
            self.freq(w) <= self.total(),
    {
        let keys = word_ids(self.cedar);
        if keys.contains_key(w) {
            lemma_sum_update(self.records@, keys[w], self.records@[keys[w]]);
        }
    }

    /// Create a new instance with empty dict
    pub fn empty() -> (r: Self)
        ensures
            r.wf(),
            r.dict() == Dict::empty(),
            r.total() == 0,
            r.num_records() == 0,
            r.model().wf(),
    {
        let hmm = HmmModel::new([0; 4], [0; 16]);
        let r = Jieba { records: Vec::new(), cedar: Cedar::new(), total: 0, hmm };
        assert(word_ids(r.cedar).dom() =~= Set::<Seq<char>>::empty());
        assert(r.dict() =~= Dict::empty());
        assert(r.dict().dom() =~= Set::<Seq<char>>::empty());
        proof {
            vstd::set::fold::lemma_fold_empty(0nat, add_freq(r.dict()));
        }
        r
    }

    /// The id of `w`, where the dictionary holds it.
    fn lookup(&self, w: &str) -> (r: Option<usize>)
        requires
            self.wf(),
        ensures
            r is Some <==> self.dict().contains_key(w@),
            r matches Some(id) ==> id < self.records@.len() && id as int == word_ids(self.cedar)[w@],
    {
        if w.is_empty() {
            return None;
        }
        let key = enc_string(w);
        proof {
            lemma_enc_storable(w@);
        }
        match self.cedar.exact_match_search(key.as_str()) {
            Some(found) => {
                assert(word_ids(self.cedar).contains_key(w@));
                assert(found.0 as int == word_ids(self.cedar)[w@]);
                Some(found.0 as usize)
            },
            None => None,
        }
    }

    /// Stores `w` with frequency `f` and tag `tag`, adding its missing
    /// prefixes with frequency 0; returns `f`.
    pub(crate) fn insert_entry(&mut self, w: &Vec<char>, f: usize, tag: String) -> (r: usize)
        requires
            old(self).wf(),
            w@.len() > 0,
            old(self).num_records() + w@.len() <= MAX_RECORDS,
            old(self).total() - old(self).freq(w@) + f <= usize::MAX,
        ensures
            final(self).wf(),
            r == f,
            final(self).dict() == dict_insert(old(self).dict(), w@, f as nat, tag@),
            final(self).total() == old(self).total() - old(self).freq(w@) + f,
            final(self).num_records() <= old(self).num_records() + w@.len(),
            final(self).model() == old(self).model(),
    {
        let ghost d0 = self.dict();
        let ghost n0 = self.records@.len();
        let ghost t0 = self.total;
        proof {
            self.lemma_num_records();
            lemma_dict_total_insert(d0, w@, f as nat, tag@);
        }
        let mut p = String::new();
        push_char(&mut p, w[0]);
        assert(p@ =~= w@.subrange(0, 1));
        assert(self.dict() =~= with_prefixes(d0, w@, 1));
        let mut k: usize = 1;
        while k < w.len()
            invariant
                1 <= k <= w@.len(),
                self.wf(),
                p@ == w@.subrange(0, k as int),
                self.dict() == with_prefixes(d0, w@, k as int),
                self.total == t0,
                self.hmm == old(self).hmm,
                w@.len() > 0,
                self.records@.len() <= n0 + k - 1,
                n0 + w@.len() <= MAX_RECORDS,
            decreases w@.len() - k,
        {
            if self.lookup(p.as_str()).is_none() {
                let id = self.records.len();
                let ghost keys = word_ids(self.cedar);
                let ghost rs = self.records@;
                let ghost dk = self.dict();
                proof {
                    self.lemma_num_records();
                }
                let rec = Record::new(0, String::new());
                let ghost grec = rec;
                self.records.push(rec);
                let key = enc_string(p.as_str());
                proof {
                    lemma_enc_storable(p@);
                }
                let ghost c0 = self.cedar;
                self.cedar.update(key.as_str(), id as i32);
                proof {
                    lemma_word_ids_insert(c0, self.cedar, p@, id as int);
                    lemma_sum_push(rs, grec);
                    let keys2 = word_ids(self.cedar);
                    assert forall|v: Seq<char>| #[trigger] keys2.contains_key(v) implies 0 <= keys2[v] < self.records@.len() by {
                        if v != p@ { assert(keys.contains_key(v)); }
                    }
                    assert forall|w1: Seq<char>, w2: Seq<char>|
                        keys2.contains_key(w1) && keys2.contains_key(w2) && #[trigger] keys2[w1] == #[trigger] keys2[w2]
                        implies w1 == w2 by {
                        if w1 != p@ && w2 != p@ {
                            assert(keys[w1] == keys[w2]);
                        } else if w1 != p@ {
                            assert(keys.contains_key(w1));
                        } else if w2 != p@ {
                            assert(keys.contains_key(w2));
                        }
                    }
                    assert forall|v: Seq<char>| keys2.contains_key(v) && v != p@ implies
                        self.records@[keys2[v]] == rs[keys[v]] by {
                        assert(keys.contains_key(v));
                    }
                    let d2 = self.dict();
                    let wk1 = with_prefixes(d0, w@, k + 1);
                    assert(!dk.contains_key(p@));
                    assert forall|v: Seq<char>| #[trigger] d2.contains_key(v) <==> wk1.contains_key(v) by {
                        assert(dk.contains_key(v) == keys.contains_key(v));
                        if v.len() == k && v == w@.subrange(0, v.len() as int) {
                            assert(v =~= p@);
                        }
                        if v == p@ {
                            assert(v =~= w@.subrange(0, v.len() as int));
                        }
                    }
                    assert forall|v: Seq<char>| #[trigger] d2.contains_key(v) implies d2[v] == wk1[v] by {
                        if v != p@ {
                            assert(keys.contains_key(v));
                            assert(dk[v] == d2[v]);
                            assert(dk.contains_key(v));
                        } else {
                            assert(!d0.contains_key(v));
                            assert(self.records@[keys2[v]] == grec);
                            assert(grec.tag@ =~= Seq::<char>::empty());
                        }
                    }
                    assert(d2 =~= wk1);
                    assert(d2 =~= dk.insert(p@, (0nat, Seq::<char>::empty())));
                    lemma_dict_total_insert_one(dk, p@, (0nat, Seq::<char>::empty()));
                    assert forall|v: Seq<char>, j: int|
                        #![trigger d2.contains_key(v), v.subrange(0, j)]
                        d2.contains_key(v) && 0 < j < v.len() implies d2.contains_key(v.subrange(0, j)) by {
                        if v == p@ {
                            assert(v.subrange(0, j) =~= w@.subrange(0, j));
                            assert(with_prefixes(d0, w@, k as int).contains_key(w@.subrange(0, j)));
                        } else {
                            assert(dk.contains_key(v));
                            assert(dk.contains_key(v.subrange(0, j)));
                        }
                    }
                }
            }
            push_char(&mut p, w[k]);
            assert(p@ =~= w@.subrange(0, k + 1));
            k += 1;
        }
        assert(p@ =~= w@);
        let ghost dp = self.dict();
        let ghost keys = word_ids(self.cedar);
        let ghost rs = self.records@;
        match self.lookup(p.as_str()) {
            Some(id) => {
                let old_freq = self.records[id].freq;
                let new_tag = if old_freq > 0 { self.records[id].tag.clone() } else { tag };
                proof {
                    lemma_sum_update(rs, id as int, Record { freq: f, tag: new_tag });
                    assert(dp.contains_key(w@));
                    assert(dp[w@].0 == old_freq);
                    if d0.contains_key(w@) {
                        assert(dp[w@] == d0[w@]);
                    } else {
                        assert(old_freq == 0);
                    }
                }
                self.records.set(id, Record::new(f, new_tag));
                self.total = self.total - old_freq + f;
                proof {
                    assert forall|v: Seq<char>| #[trigger] keys.contains_key(v) && v != w@ implies
                        self.records@[keys[v]] == rs[keys[v]] by {
                        assert(keys[v] != keys[w@]);
                    }
                    assert(self.dict() =~= dp.insert(w@, (f as nat, new_tag@)));
                    assert(self.dict() =~= dict_insert(d0, w@, f as nat, tag@));
                    let d2 = self.dict();
                    assert forall|v: Seq<char>, j: int|
                        #![trigger d2.contains_key(v), v.subrange(0, j)]
                        d2.contains_key(v) && 0 < j < v.len() implies d2.contains_key(v.subrange(0, j)) by {
                        assert(dp.contains_key(v));
                        assert(dp.contains_key(v.subrange(0, j)));
                    }
                    assert(self.total == sum_freq(self.records@));
                }
            },
            None => {
                let id = self.records.len();
                proof { lemma_sum_push(rs, Record { freq: f, tag: tag }); }
                self.records.push(Record::new(f, tag));
                let key = enc_string(p.as_str());
                proof {
                    lemma_enc_storable(p@);
                }
                let ghost c0 = self.cedar;
                self.cedar.update(key.as_str(), id as i32);
                self.total = self.total + f;
                proof {
                    lemma_word_ids_insert(c0, self.cedar, p@, id as int);
                    let keys2 = word_ids(self.cedar);
                    assert forall|v: Seq<char>| #[trigger] keys2.contains_key(v) implies 0 <= keys2[v] < self.records@.len() by {
                        if v != p@ { assert(keys.contains_key(v)); }
                    }
                    assert forall|w1: Seq<char>, w2: Seq<char>|
                        keys2.contains_key(w1) && keys2.contains_key(w2) && #[trigger] keys2[w1] == #[trigger] keys2[w2]
                        implies w1 == w2 by {
                        if w1 != p@ && w2 != p@ {
                            assert(keys[w1] == keys[w2]);
                        } else if w1 != p@ {
                            assert(keys.contains_key(w1));
                        } else if w2 != p@ {
                            assert(keys.contains_key(w2));
                        }
                    }
                    assert forall|v: Seq<char>| keys2.contains_key(v) && v != p@ implies
                        self.records@[keys2[v]] == rs[keys[v]] by {
                        assert(keys.contains_key(v));
                    }
                    assert(self.dict() =~= dp.insert(w@, (f as nat, tag@)));
                    assert(self.dict() =~= dict_insert(d0, w@, f as nat, tag@));
                    let d2 = self.dict();
                    assert forall|v: Seq<char>, j: int|
                        #![trigger d2.contains_key(v), v.subrange(0, j)]
                        d2.contains_key(v) && 0 < j < v.len() implies d2.contains_key(v.subrange(0, j)) by {
                        if v == p@ {
                            assert(v.subrange(0, j) =~= w@.subrange(0, j));
                            assert(dp.contains_key(w@.subrange(0, j)));
                        } else {
                            assert(dp.contains_key(v));
                            assert(dp.contains_key(v.subrange(0, j)));
                        }
                    }
                }
            },
        }
        f
    }

    /// Replaces the model that labels runs the dictionary does not know.
    pub fn set_hmm_model(&mut self, m: HmmModel)
        requires
            old(self).wf(),
            m.wf(),
        ensures
            final(self).wf(),
            final(self).model() == m,
            final(self).dict() == old(self).dict(),
            final(self).total() == old(self).total(),
            final(self).num_records() == old(self).num_records(),
    {
        self.hmm = m;
    }

    /// The model that labels runs the dictionary does not know.
    pub fn hmm_model(&self) -> (r: &HmmModel)
        requires
            self.wf(),
        ensures
            *r == self.model(),
            r.wf(),
    {
        &self.hmm
    }

    /// The number of records held.
    pub fn num_records_exec(&self) -> (r: usize)
        ensures
            r == self.num_records(),
    {
        self.records.len()
    }

    /// The sum of all frequencies.
    pub fn total_freq(&self) -> (r: usize)
        ensures
            r == self.total(),
    {
        self.total
    }

    /// The frequency of `w`, where the dictionary holds it.
    pub fn entry_freq(&self, w: &str) -> (r: Option<usize>)
        requires
            self.wf(),
        ensures
            r is Some <==> self.dict().contains_key(w@),
            r matches Some(f) ==> f == self.dict()[w@].0,
    {
        match self.lookup(w) {
            Some(id) => Some(self.records[id].freq),
            None => None,
        }
    }

    /// The frequency and the tag of `w`, where the dictionary holds it.
    pub fn entry(&self, w: &str) -> (r: Option<(usize, String)>)
        requires
            self.wf(),
        ensures
            r is Some <==> self.dict().contains_key(w@),
            r matches Some(e) ==> e.0 == self.dict()[w@].0 && e.1@ == self.dict()[w@].1,
    {
        match self.lookup(w) {
            Some(id) => Some((self.records[id].freq, self.records[id].tag.clone())),
            None => None,
        }
    }

    /// The frequency of `w`, or `default` where the dictionary does not hold it.
    pub fn get_word_freq(&self, w: &str, default: usize) -> (r: usize)
        requires
            self.wf(),
        ensures
            r == if self.dict().contains_key(w@) { self.dict()[w@].0 } else { default as nat },
    {
        match self.lookup(w) {
            Some(id) => self.records[id].freq,
            None => default,
        }
    }
}

} // verus!
