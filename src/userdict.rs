//! Growing the dictionary: suggested frequencies, single words, and
//! dictionary text with one entry per line.
use vstd::prelude::*;
use crate::blocks::cut_spans;
use crate::errors::Error;
use crate::jieba::{Dict, Jieba, freq_in, dict_insert, dict_total, MAX_RECORDS};
use crate::digits::{pw, val, digits_ok, times, high_value, lemma_pw_pos, lemma_pw_mono, lemma_val_bound, lemma_val_div};
use crate::text::{pieces, views, chars_of, string_of, string_from, sub_vec_chars, push_str, push_digits, digits,
    CharClass, run_end, lemma_run_end, find_run_end, is_ascii_digit, ascii_digit};

verus! {

/// The frequency a word counts with: its own where positive, else 1.
pub open spec fn count_freq(d: Dict, w: Seq<char>) -> nat {
    if freq_in(d, w) > 0 {
        freq_in(d, w)
    } else {
        1
    }
}

/// The product of `count_freq(w)` over the words `ws`.
pub open spec fn prod_freq(d: Dict, ws: Seq<Seq<char>>) -> nat
    decreases ws.len(),
{
    if ws.len() == 0 {
        1
    } else {
        prod_freq(d, ws.drop_last()) * count_freq(d, ws.last())
    }
}

/// The weight of cutting into the words `ws`: `exp` of the sum of
/// `ln(count_freq(w))` less `(n - 1) * ln(total)`, rounded down, which is
/// `total` times the product of the frequencies over `total` to the power
/// `n`; 0 where `total` is 0.
pub open spec fn cut_weight(d: Dict, total: nat, ws: Seq<Seq<char>>) -> nat {
    if total == 0 {
        0
    } else {
        total * prod_freq(d, ws) / pw(total, ws.len())
    }
}

/// `n + 1`, staying at `usize::MAX`.
pub open spec fn sat_inc(n: nat) -> nat {
    if n < usize::MAX {
        n + 1
    } else {
        n
    }
}

/// The frequency that `seg` needs to be cut as one word, given the words
/// `ws` that it is cut into now: one more than the weight of that cut, or
/// its own frequency where that is larger.
pub open spec fn suggested(d: Dict, total: nat, ws: Seq<Seq<char>>, seg: Seq<char>) -> nat {
    let c = sat_inc(cut_weight(d, total, ws));
    let own = count_freq(d, seg);
    if c >= own {
        c
    } else {
        own
    }
}

proof fn lemma_prod_le(d: Dict, total: nat, ws: Seq<Seq<char>>)
    requires
        forall|w: Seq<char>| #[trigger] count_freq(d, w) <= total,
    ensures
        prod_freq(d, ws) <= pw(total, ws.len()),
        total == 1 ==> prod_freq(d, ws) == 1 && pw(total, ws.len()) == 1,
    decreases ws.len(),
{
    if ws.len() > 0 {
        lemma_prod_le(d, total, ws.drop_last());
        let q = prod_freq(d, ws.drop_last());
        let f = count_freq(d, ws.last());
        let p = pw(total, (ws.len() - 1) as nat);
        assert(q * f <= p * total) by (nonlinear_arith)
            requires q <= p, f <= total;
        assert(pw(total, ws.len()) == total * p);
        if total == 1 {
            assert(f == 1);
            assert(q * f == 1) by (nonlinear_arith)
                requires q == 1, f == 1;
            assert(pw(total, ws.len()) == 1) by (nonlinear_arith)
                requires pw(total, ws.len()) == total * p, total == 1, p == 1;
        }
    } else {
        assert(pw(total, 0) == 1);
    }
}

proof fn lemma_cut_weight_le(d: Dict, total: nat, ws: Seq<Seq<char>>)
    requires
        forall|w: Seq<char>| #[trigger] count_freq(d, w) <= total,
    ensures
        cut_weight(d, total, ws) <= total,
{
    if total > 0 {
        lemma_prod_le(d, total, ws);
        lemma_pw_pos(total, ws.len());
        let p = pw(total, ws.len());
        let x = total * prod_freq(d, ws);
        assert(x <= total * p) by (nonlinear_arith)
            requires prod_freq(d, ws) <= p, x == total * prod_freq(d, ws);
        vstd::arithmetic::div_mod::lemma_fundamental_div_mod(x as int, p as int);
        let q = x / p;
        assert(q <= total) by (nonlinear_arith)
            requires x == p * q + x % p, x % p >= 0, x <= total * p, p > 0;
    }
}

/// The value of the decimal digits `ds`.
pub open spec fn decimal(ds: Seq<char>) -> nat
    decreases ds.len(),
{
    if ds.len() == 0 {
        0
    } else {
        decimal(ds.drop_last()) * 10 + (ds.last() as nat - '0' as nat) as nat
    }
}

/// `f` without a leading `+`.
pub open spec fn unsigned_part(f: Seq<char>) -> Seq<char> {
    if f.len() > 0 && f[0] == '+' {
        f.drop_first()
    } else {
        f
    }
}

/// Every character of `ds` is an ASCII digit.
pub open spec fn all_digits(ds: Seq<char>) -> bool {
    forall|i: int| 0 <= i < ds.len() ==> is_ascii_digit(#[trigger] ds[i])
}

/// What parsing `f` as a `usize` gives: an optional `+`, then one or more
/// ASCII digits, with a value that fits.
pub open spec fn parse_usize(f: Seq<char>) -> Option<nat> {
    let ds = unsigned_part(f);
    if ds.len() == 0 || !all_digits(ds) {
        None
    } else if decimal(ds) > usize::MAX {
        None
    } else {
        Some(decimal(ds))
    }
}

/// Parses `t[a..b]` as a `usize`.
pub fn parse_usize_of(t: &Vec<char>, a: usize, b: usize) -> (r: Option<usize>)
    requires
        a <= b <= t@.len(),
    ensures
        r == match parse_usize(t@.subrange(a as int, b as int)) {
            Some(v) => Some(v as usize),
            None => None,
        },
        r matches Some(v) ==> parse_usize(t@.subrange(a as int, b as int)) == Some(v as nat),
{
    let ghost f = t@.subrange(a as int, b as int);
    let start = if a < b && t[a] == '+' { a + 1 } else { a };
    let ghost ds = t@.subrange(start as int, b as int);
    assert(ds =~= unsigned_part(f));
    if start == b {
        return None;
    }
    let mut v: usize = 0;
    let mut i = start;
    while i < b
        invariant
            start <= i <= b <= t@.len(),
            a <= start,
            ds == t@.subrange(start as int, b as int),
            f == t@.subrange(a as int, b as int),
            ds == unsigned_part(f),
            forall|k: int| start <= k < i ==> is_ascii_digit(#[trigger] t@[k]),
            v == decimal(t@.subrange(start as int, i as int)),
        decreases b - i,
    {
        let c = t[i];
        if !ascii_digit(c) {
            assert(ds[(i - start) as int] == c);
            assert(!is_ascii_digit(ds[(i - start) as int]));
            assert(!all_digits(ds));
            assert(parse_usize(f) is None);
            return None;
        }
        let dv = (c as u32 - '0' as u32) as usize;
        proof {
            assert(t@.subrange(start as int, i + 1).drop_last() =~= t@.subrange(start as int, i as int));
        }
        if v > (usize::MAX - dv) / 10 {
            proof {
                assert(decimal(t@.subrange(start as int, i + 1)) == v * 10 + dv);
                assert(v * 10 + dv > usize::MAX) by (nonlinear_arith)
                    requires v > (usize::MAX - dv) / 10, dv <= 9;
                if all_digits(ds) {
                    lemma_decimal_grows(ds, (i - start) as int);
                    assert(ds.subrange(0, i - start + 1) =~= t@.subrange(start as int, i + 1));
                }
                assert(parse_usize(f) is None);
            }
            return None;
        }
        v = v * 10 + dv;
        i = i + 1;
    }
    assert(ds =~= t@.subrange(start as int, i as int));
    assert(all_digits(ds));
    Some(v)
}

/// A longer run of digits is worth no less.
proof fn lemma_decimal_grows(ds: Seq<char>, k: int)
    requires
        0 <= k < ds.len(),
        forall|i: int| 0 <= i < ds.len() ==> is_ascii_digit(#[trigger] ds[i]),
    ensures
        decimal(ds.subrange(0, k + 1)) <= decimal(ds),
    decreases ds.len() - k,
{
    if k + 1 < ds.len() {
        lemma_decimal_grows(ds, k + 1);
        let a = ds.subrange(0, k + 2);
        assert(a.drop_last() =~= ds.subrange(0, k + 1));
        assert(decimal(a) >= decimal(ds.subrange(0, k + 1)));
    } else {
        assert(ds.subrange(0, k + 1) =~= ds);
    }
}

/// What one line of dictionary text holds.
pub enum Line {
    /// Nothing but white space.
    Blank,
    /// A word, its frequency (0 where none is given) and its tag (empty
    /// where none is given).
    Entry(Seq<char>, nat, Seq<char>),
    /// A frequency that is not an integer: the line and the bad field.
    BadFreq(Seq<char>),
}

/// The line of `t` that starts at `p`: up to the next line feed.
pub open spec fn line_end(t: Seq<char>, p: int) -> int {
    run_end(t, p, t.len() as int, CharClass::LineFeed, false)
}

/// The start of the next field at or after `i`, within `t[..q]`.
pub open spec fn field_start(t: Seq<char>, i: int, q: int) -> int {
    run_end(t, i, q, CharClass::Space, true)
}

/// The end of the field that starts at `i`, within `t[..q]`.
pub open spec fn field_end(t: Seq<char>, i: int, q: int) -> int {
    run_end(t, i, q, CharClass::Space, false)
}

/// The line `t[p..q]`, split at white space into a word, a frequency and
/// a tag; further fields are ignored.
pub open spec fn parse_line(t: Seq<char>, p: int, q: int) -> Line {
    let a0 = field_start(t, p, q);
    if a0 >= q {
        Line::Blank
    } else {
        let b0 = field_end(t, a0, q);
        let w = t.subrange(a0, b0);
        let a1 = field_start(t, b0, q);
        if a1 >= q {
            Line::Entry(w, 0, seq![])
        } else {
            let b1 = field_end(t, a1, q);
            match parse_usize(t.subrange(a1, b1)) {
                None => Line::BadFreq(t.subrange(a1, b1)),
                Some(f) => {
                    let a2 = field_start(t, b1, q);
                    let tag = if a2 >= q {
                        seq![]
                    } else {
                        t.subrange(a2, field_end(t, a2, q))
                    };
                    Line::Entry(w, f, tag)
                },
            }
        }
    }
}

/// The message for the line `line`, numbered `n`, whose frequency `f` is
/// not an integer.
pub open spec fn bad_freq_message(n: nat, line: Seq<char>, f: Seq<char>) -> Seq<char> {
    seq!['l', 'i', 'n', 'e', ' '] + digits(n) + seq![' ', '`'] + line + seq!['`', ' ', 'f', 'r', 'e', 'q', 'u', 'e',
        'n', 'c', 'y', ' '] + f + seq![' ', 'i', 's', ' ', 'n', 'o', 't', ' ', 'a', ' ', 'v', 'a', 'l', 'i', 'd', ' ',
        'i', 'n', 't', 'e', 'g', 'e', 'r']
}

/// The message for the line `line`, numbered `n`, whose entry does not fit
/// this machine's limits: more words than the trie's `i32` ids can number,
/// or a total frequency beyond `usize::MAX`.
pub open spec fn no_room_message(n: nat, line: Seq<char>) -> Seq<char> {
    seq!['l', 'i', 'n', 'e', ' '] + digits(n) + seq![' ', '`'] + line + seq!['`', ' ', 'd', 'o', 'e', 's', ' ', 'n',
        'o', 't', ' ', 'f', 'i', 't']
}

/// An entry fits the machine's limits: the trie has ids for it and its
/// prefixes, and the total stays within `usize`.
pub open spec fn fits(d: Dict, total: nat, w: Seq<char>, f: nat) -> bool {
    d.dom().len() + w.len() <= MAX_RECORDS && total - freq_in(d, w) + f <= usize::MAX
}

/// Loading `t` from position `p`, line number `n`, into the dictionary `d`
/// with total `total`: the dictionary and total after each line, and the
/// line that stopped the load, if any: `true` with its message for a
/// frequency that is not an integer, `false` for an entry beyond the limits.
pub open spec fn load_from(d: Dict, total: nat, t: Seq<char>, p: int, n: nat) -> (Dict, nat, Option<(bool, Seq<char>)>)
    decreases t.len() + 1 - p,
{
    if p < 0 || p >= t.len() {
        (d, total, None)
    } else {
        let q = line_end(t, p);
        if q < p || q > t.len() {
            (d, total, None)
        } else {
            match parse_line(t, p, q) {
                Line::Blank => load_from(d, total, t, q + 1, n + 1),
                Line::BadFreq(f) => (d, total, Some((true, bad_freq_message(n, t.subrange(p, q), f)))),
                Line::Entry(w, f, tag) => {
                    if fits(d, total, w, f) {
                        load_from(dict_insert(d, w, f, tag), (total - freq_in(d, w) + f) as nat, t, q + 1, n + 1)
                    } else {
                        (d, total, Some((false, no_room_message(n, t.subrange(p, q)))))
                    }
                },
            }
        }
    }
}

impl Jieba {
    /// Suggest word frequency to force the characters in a word to be joined or split.
    pub fn suggest_freq(&self, segment: &str) -> (r: usize)
        requires
            self.wf(),
        ensures
            r == suggested(
                self.dict(),
                self.total(),
                pieces(segment@, cut_spans(self.dict(), self.total(), self.model(), segment@, false, false)),
                segment@,
            ),
            r <= self.total() + 1,
    {
        let words = self.cut(segment, false);
        let ghost d = self.dict();
        let ghost ws = views(words@);
        let total = self.total_freq();
        let n = words.len();
        proof {
            assert forall|w: Seq<char>| total > 0 implies #[trigger] count_freq(d, w) <= total by {
                self.lemma_freq_le_total(w);
            }
            if total > 0 {
                lemma_cut_weight_le(d, total as nat, ws);
            }
        }
        let weight: usize = if total == 0 {
            0
        } else if total == 1 {
            proof {
                lemma_prod_le(d, 1, ws);
                assert(1 * prod_freq(d, ws) / pw(1, ws.len()) == 1) by (nonlinear_arith)
                    requires prod_freq(d, ws) == 1, pw(1, ws.len()) == 1;
            }
            1
        } else {
            let mut ds: Vec<usize> = vec![0, 1];
            proof {
                assert(ds@.len() == 2 && ds@[0] == 0 && ds@[1] == 1);
                assert(ds@.drop_first()[0] == 1);
                assert(ds@.drop_first().drop_first() =~= Seq::<usize>::empty());
                assert(val(ds@.drop_first().drop_first(), total as nat) == 0);
                assert(val(ds@.drop_first(), total as nat) == 1 + total * 0);
                assert(val(ds@, total as nat) == 0 + total * 1);
                assert(ws.subrange(0, 0) =~= Seq::<Seq<char>>::empty());
            }
            let mut k: usize = 0;
            while k < words.len()
                invariant
                    self.wf(),
                    d == self.dict(),
                    total == self.total(),
                    total >= 2,
                    ws == views(words@),
                    k <= words@.len(),
                    digits_ok(ds@, total as nat),
                    val(ds@, total as nat) == total * prod_freq(d, ws.subrange(0, k as int)),
                decreases words@.len() - k,
            {
                let f = self.get_word_freq(words[k].as_str(), 0);
                let f = if f == 0 { 1 } else { f };
                let ghost v0 = val(ds@, total as nat);
                ds = times(&ds, total, f);
                proof {
                    assert(ws[k as int] == words@[k as int]@);
                    let sub = ws.subrange(0, k + 1);
                    assert(sub.drop_last() =~= ws.subrange(0, k as int));
                    assert(sub.last() == ws[k as int]);
                    let p0 = prod_freq(d, ws.subrange(0, k as int));
                    assert(prod_freq(d, sub) == p0 * f);
                    assert(v0 * f == total * (p0 * f)) by (nonlinear_arith)
                        requires v0 == total * p0;
                }
                k = k + 1;
            }
            assert(ws.subrange(0, n as int) =~= ws);
            proof {
                lemma_pw_pos(total as nat, n as nat);
            }
            if n >= ds.len() {
                proof {
                    lemma_val_bound(ds@, total as nat);
                    lemma_pw_mono(total as nat, ds@.len(), n as nat);
                    let x = val(ds@, total as nat);
                    let p = pw(total as nat, n as nat);
                    vstd::arithmetic::div_mod::lemma_fundamental_div_mod_converse(x as int, p as int, 0, x as int);
                    assert(x == total * prod_freq(d, ws));
                    assert(cut_weight(d, total as nat, ws) == 0);
                }
                0
            } else {
                proof {
                    lemma_val_div(ds@, total as nat, n as int);
                    assert(val(ds@, total as nat) == total * prod_freq(d, ws));
                    assert(val(ds@, total as nat) / pw(total as nat, n as nat) == cut_weight(d, total as nat, ws));
                }
                high_value(&ds, total, n, total)
            }
        };
        assert(weight == cut_weight(d, total as nat, ws));
        let c: usize = if weight < usize::MAX { weight + 1 } else { weight };
        let own = self.get_word_freq(segment, 0);
        let own = if own == 0 { 1 } else { own };
        proof { self.lemma_freq_le_total(segment@); }
        if c >= own { c } else { own }
    }

    /// Add word to dict, return `freq`
    ///
    /// `freq`: if `None`, will be given by [suggest_freq](#method.suggest_freq)
    ///
    /// `tag`: if `None`, will be given `""`
    pub fn add_word(&mut self, word: &str, freq: Option<usize>, tag: Option<&str>) -> (r: usize)
        requires
            old(self).wf(),
            word@.len() > 0,
            old(self).num_records() + word@.len() <= MAX_RECORDS,
            match freq {
                Some(f) => old(self).total() - old(self).freq(word@) + f <= usize::MAX,
                None => 2 * old(self).total() + 1 <= usize::MAX,
            },
        ensures
            final(self).wf(),
            freq matches Some(f) ==> r == f,
            freq is None ==> r == suggested(
                old(self).dict(),
                old(self).total(),
                pieces(word@, cut_spans(old(self).dict(), old(self).total(), old(self).model(), word@, false, false)),
                word@,
            ),
            final(self).dict() == dict_insert(old(self).dict(), word@, r as nat, match tag { Some(t) => t@, None => Seq::<char>::empty() }),
            final(self).total() == old(self).total() - old(self).freq(word@) + r,
            final(self).total() == dict_total(final(self).dict()),
            final(self).model() == old(self).model(),
    {
        let f = match freq {
            Some(f) => f,
            None => self.suggest_freq(word),
        };
        let tag = match tag {
            Some(t) => string_from(chars_of(t).as_slice()),
            None => String::new(),
        };
        let w = chars_of(word);
        proof { self.lemma_freq_le_total(word@); }
        let r = self.insert_entry(&w, f, tag);
        proof { self.lemma_total_is_sum(); }
        r
    }

    /// Load dictionary text: one entry per line, a word, then optionally a
    /// frequency and a tag, separated by white space.
    pub fn load_dict(&mut self, text: &str) -> (r: Result<(), Error>)
        requires
            old(self).wf(),
        ensures
            final(self).wf(),
            final(self).model() == old(self).model(),
            final(self).dict() == load_from(old(self).dict(), old(self).total(), text@, 0, 1).0,
            final(self).total() == load_from(old(self).dict(), old(self).total(), text@, 0, 1).1,
            final(self).total() == dict_total(final(self).dict()),
            r is Ok <==> load_from(old(self).dict(), old(self).total(), text@, 0, 1).2 is None,
            r matches Err(e) ==> match e {
                Error::InvalidDictEntry(msg) => load_from(old(self).dict(), old(self).total(), text@, 0, 1).2 == Some(
                    (true, msg@),
                ),
                Error::TooLarge(msg) => load_from(old(self).dict(), old(self).total(), text@, 0, 1).2 == Some(
                    (false, msg@),
                ),
                Error::Io(_) => false,
            },
    {
        let t = chars_of(text);
        let n = t.len();
        let ghost res = load_from(self.dict(), self.total(), t@, 0, 1);
        let mut p: usize = 0;
        let mut line_no: usize = 1;
        while p < n
            invariant
                self.wf(),
                self.model() == old(self).model(),
                n == t@.len(),
                t@ == text@,
                n * 4 <= isize::MAX,
                p <= n,
                line_no <= p + 1,
                res == load_from(old(self).dict(), old(self).total(), text@, 0, 1),
                load_from(self.dict(), self.total(), t@, p as int, line_no as nat) == res,
            decreases n - p,
        {
            let q = find_run_end(&t, p, n, CharClass::LineFeed, false);
            let a0 = find_run_end(&t, p, q, CharClass::Space, true);
            proof {
                lemma_run_end(t@, p as int, n as int, CharClass::LineFeed, false);
                lemma_run_end(t@, p as int, q as int, CharClass::Space, true);
            }
            if a0 < q {
                let b0 = find_run_end(&t, a0, q, CharClass::Space, false);
                let a1 = find_run_end(&t, b0, q, CharClass::Space, true);
                proof {
                    lemma_run_end(t@, a0 as int, q as int, CharClass::Space, false);
                    lemma_run_end(t@, b0 as int, q as int, CharClass::Space, true);
                }
                let w = sub_vec_chars(&t, a0, b0);
                let parsed: Option<(usize, String)> = if a1 >= q {
                    Some((0, String::new()))
                } else {
                    let b1 = find_run_end(&t, a1, q, CharClass::Space, false);
                    proof { lemma_run_end(t@, a1 as int, q as int, CharClass::Space, false); }
                    match parse_usize_of(&t, a1, b1) {
                        None => {
                            let mut msg = String::new();
                            push_str(&mut msg, "line ");
                            push_digits(&mut msg, line_no);
                            push_str(&mut msg, " `");
                            let line = string_of(t.as_slice(), p, q);
                            push_str(&mut msg, line.as_str());
                            push_str(&mut msg, "` frequency ");
                            let field = string_of(t.as_slice(), a1, b1);
                            push_str(&mut msg, field.as_str());
                            push_str(&mut msg, " is not a valid integer");
                            proof {
                                reveal_strlit("line ");
                                reveal_strlit(" `");
                                reveal_strlit("` frequency ");
                                reveal_strlit(" is not a valid integer");
                                assert(msg@ =~= bad_freq_message(line_no as nat, t@.subrange(p as int, q as int), t@.subrange(a1 as int, b1 as int)));
                                assert(parse_line(t@, p as int, q as int) == Line::BadFreq(t@.subrange(a1 as int, b1 as int)));
                                assert(load_from(self.dict(), self.total(), t@, p as int, line_no as nat) == (self.dict(), self.total(), Some((true, msg@))));
                            }
                            proof { self.lemma_total_is_sum(); }
                            return Err(Error::InvalidDictEntry(msg));
                        },
                        Some(f) => {
                            let a2 = find_run_end(&t, b1, q, CharClass::Space, true);
                            proof { lemma_run_end(t@, b1 as int, q as int, CharClass::Space, true); }
                            let tag = if a2 >= q {
                                String::new()
                            } else {
                                let b2 = find_run_end(&t, a2, q, CharClass::Space, false);
                                proof { lemma_run_end(t@, a2 as int, q as int, CharClass::Space, false); }
                                string_of(t.as_slice(), a2, b2)
                            };
                            Some((f, tag))
                        },
                    }
                };
                match parsed {
                    Some((f, tag)) => {
                        let ws = string_from(w.as_slice());
                        let old_f = self.get_word_freq(ws.as_str(), 0);
                        proof {
                            self.lemma_num_records();
                            self.lemma_freq_le_total(w@);
                        }
                        let room = w.len() <= MAX_RECORDS && self.num_records_exec() <= MAX_RECORDS - w.len() && self.total_freq() - old_f <= usize::MAX - f;
                        if !room {
                            let mut msg = String::new();
                            push_str(&mut msg, "line ");
                            push_digits(&mut msg, line_no);
                            push_str(&mut msg, " `");
                            let line = string_of(t.as_slice(), p, q);
                            push_str(&mut msg, line.as_str());
                            push_str(&mut msg, "` does not fit");
                            proof {
                                reveal_strlit("line ");
                                reveal_strlit(" `");
                                reveal_strlit("` does not fit");
                                assert(msg@ =~= no_room_message(line_no as nat, t@.subrange(p as int, q as int)));
                                assert(parse_line(t@, p as int, q as int) == Line::Entry(w@, f as nat, tag@));
                                assert(!fits(self.dict(), self.total(), w@, f as nat));
                                assert(load_from(self.dict(), self.total(), t@, p as int, line_no as nat) == (self.dict(), self.total(), Some((false, msg@))));
                            }
                            proof { self.lemma_total_is_sum(); }
                            return Err(Error::TooLarge(msg));
                        }
                        let ghost d0 = self.dict();
                        let ghost t0 = self.total();
                        let ghost tg = tag@;
                        proof {
                            assert(parse_line(t@, p as int, q as int) == Line::Entry(w@, f as nat, tg));
                            assert(fits(d0, t0, w@, f as nat));
                        }
                        self.insert_entry(&w, f, tag);
                        assert(load_from(d0, t0, t@, p as int, line_no as nat) == load_from(self.dict(), self.total(), t@, q + 1, (line_no + 1) as nat));
                    },
                    None => {},
                }
            } else {
                assert(parse_line(t@, p as int, q as int) == Line::Blank);
                assert(load_from(self.dict(), self.total(), t@, p as int, line_no as nat) == load_from(
                    self.dict(), self.total(), t@, q + 1, (line_no + 1) as nat));
            }
            assert(load_from(self.dict(), self.total(), t@, q + 1, (line_no + 1) as nat) == res);
            if q < n {
                p = q + 1;
            } else {
                p = n;
                assert(load_from(self.dict(), self.total(), t@, n + 1, (line_no + 1) as nat) == (self.dict(), self.total(), None::<(bool, Seq<char>)>));
            }
            line_no = line_no + 1;
        }
        proof { self.lemma_total_is_sum(); }
        Ok(())
    }

    /// Create a new instance with dict
    pub fn with_dict(text: &str) -> (r: Result<Self, Error>)
        ensures
            r matches Ok(j) ==> j.wf() && j.dict() == load_from(Dict::empty(), 0, text@, 0, 1).0 && j.total()
                == load_from(Dict::empty(), 0, text@, 0, 1).1,
            r is Ok <==> load_from(Dict::empty(), 0, text@, 0, 1).2 is None,
    {
        let mut instance = Self::empty();
        match instance.load_dict(text) {
            Ok(()) => Ok(instance),
            Err(e) => Err(e),
        }
    }
}

} // verus!
