//! The double-array trie of the `cedarwood` crate, seen as a map from words
//! to word ids.
use vstd::prelude::*;
use cedarwood::Cedar;

verus! {

#[verifier::external_type_specification]
#[verifier::external_body]
pub struct ExCedar(Cedar);

/// What a trie holds: each key, as characters, with the value stored for it.
pub uninterp spec fn cedar_keys(c: Cedar) -> Map<Seq<char>, int>;

/// Relies on `Cedar::new`: a new trie holds no key.
pub assume_specification[ Cedar::new ]() -> (r: Cedar)
    ensures
        cedar_keys(r).dom() == Set::<Seq<char>>::empty(),
;

/// A key the trie can hold: not empty, and without the byte 0, which the
/// trie uses to mark where a key ends.
pub open spec fn storable(key: Seq<char>) -> bool {
    key.len() > 0 && forall|i: int| 0 <= i < key.len() ==> key[i] != '\0'
}

/// Relies on `Cedar::update`: stores `value` under `key`, keeping every other key.
/// It panics on an empty key, and `-1` is its mark for "no value".
pub assume_specification[ Cedar::update ](c: &mut Cedar, key: &str, value: i32)
    requires
        storable(key@),
        value >= 0,
    ensures
        cedar_keys(*final(c)) == cedar_keys(*old(c)).insert(key@, value as int),
;

/// Relies on `Cedar::exact_match_search`: finds the value stored under `key`.
pub assume_specification[ Cedar::exact_match_search ](c: &Cedar, key: &str) -> (r: Option<(i32, usize, usize)>)
    requires
        storable(key@),
    ensures
        r is Some <==> cedar_keys(*c).contains_key(key@),
        match r {
            Some(found) => found.0 as int == cedar_keys(*c)[key@],
            None => true,
        },
;

/// The escape character of the key encoding.
pub const ESC: char = '\u{1}';

/// The key characters for `c`: U+0000, which the trie cannot hold, becomes
/// `ESC 0`; `ESC` itself is doubled; every other character stands for itself.
pub open spec fn enc_char(c: char) -> Seq<char> {
    if c == '\0' {
        seq![ESC, '0']
    } else if c == ESC {
        seq![ESC, ESC]
    } else {
        seq![c]
    }
}

/// The key under which the word `w` is stored in the trie.
pub open spec fn enc(w: Seq<char>) -> Seq<char>
    decreases w.len(),
{
    if w.len() == 0 {
        seq![]
    } else {
        enc(w.drop_last()) + enc_char(w.last())
    }
}

/// The word ids held by a trie, by word: each word whose key the trie holds.
pub open spec fn word_ids(c: Cedar) -> Map<Seq<char>, int> {
    Map::new(|w: Seq<char>| cedar_keys(c).contains_key(enc(w)), |w: Seq<char>| cedar_keys(c)[enc(w)])
}

/// The key of a word starts with the key of its first character.
pub proof fn lemma_enc_front(w: Seq<char>)
    requires
        w.len() > 0,
    ensures
        enc(w) == enc_char(w[0]) + enc(w.drop_first()),
    decreases w.len(),
{
    if w.len() == 1 {
        assert(w.drop_last() =~= Seq::<char>::empty());
        assert(w.drop_first() =~= Seq::<char>::empty());
        assert(enc(w.drop_first()) == Seq::<char>::empty());
        assert(enc(w) =~= enc_char(w[0]));
    } else {
        lemma_enc_front(w.drop_last());
        assert(w.drop_last().drop_first() =~= w.drop_first().drop_last());
        assert(w.drop_first().last() == w.last());
        assert(w.drop_last()[0] == w[0]);
        assert(enc(w.drop_first()) == enc(w.drop_first().drop_last()) + enc_char(w.drop_first().last()));
        assert(enc(w) =~= enc_char(w[0]) + enc(w.drop_first()));
    }
}

/// A key is at least as long as its word.
pub proof fn lemma_enc_len(w: Seq<char>)
    ensures
        enc(w).len() >= w.len(),
    decreases w.len(),
{
    if w.len() > 0 {
        lemma_enc_len(w.drop_last());
    }
}

/// A key holds no U+0000.
pub proof fn lemma_enc_no_nul(w: Seq<char>)
    ensures
        forall|i: int| 0 <= i < enc(w).len() ==> enc(w)[i] != '\0',
    decreases w.len(),
{
    if w.len() > 0 {
        lemma_enc_no_nul(w.drop_last());
        let a = enc(w.drop_last());
        let b = enc_char(w.last());
        assert forall|i: int| 0 <= i < enc(w).len() implies enc(w)[i] != '\0' by {
            if i < a.len() {
                assert(enc(w)[i] == a[i]);
            } else {
                assert(enc(w)[i] == b[i - a.len()]);
            }
        }
    }
}

/// The key of a non-empty word can be stored in the trie.
pub proof fn lemma_enc_storable(w: Seq<char>)
    requires
        w.len() > 0,
    ensures
        storable(enc(w)),
{
    lemma_enc_len(w);
    lemma_enc_no_nul(w);
}

/// Distinct words have distinct keys.
pub proof fn lemma_enc_injective(a: Seq<char>, b: Seq<char>)
    requires
        enc(a) == enc(b),
    ensures
        a == b,
    decreases a.len() + b.len(),
{
    if a.len() == 0 || b.len() == 0 {
        lemma_enc_len(a);
        lemma_enc_len(b);
        if a.len() > 0 {
            lemma_enc_front(a);
        }
        if b.len() > 0 {
            lemma_enc_front(b);
        }
        assert(a =~= b);
    } else {
        lemma_enc_front(a);
        lemma_enc_front(b);
        let ca = enc_char(a[0]);
        let cb = enc_char(b[0]);
        let e = enc(a);
        assert(e[0] == ca[0] && e[0] == cb[0]);
        if ca.len() == 2 {
            assert(cb.len() == 2);
            assert(e[1] == ca[1] && e[1] == cb[1]);
        } else {
            assert(cb.len() == 1);
        }
        assert(a[0] == b[0]);
        assert(ca == cb);
        assert(enc(a.drop_first()) =~= e.subrange(ca.len() as int, e.len() as int));
        assert(enc(b.drop_first()) =~= e.subrange(cb.len() as int, e.len() as int));
        lemma_enc_injective(a.drop_first(), b.drop_first());
        assert(a =~= seq![a[0]] + a.drop_first());
        assert(b =~= seq![b[0]] + b.drop_first());
    }
}

/// Storing the key of `p` adds `p` to the word ids, and nothing else.
pub proof fn lemma_word_ids_insert(c0: Cedar, c1: Cedar, p: Seq<char>, id: int)
    requires
        cedar_keys(c1) == cedar_keys(c0).insert(enc(p), id),
    ensures
        word_ids(c1) == word_ids(c0).insert(p, id),
{
    assert forall|w: Seq<char>| #[trigger] word_ids(c1).contains_key(w) <==> word_ids(c0).insert(p, id).contains_key(w) by {
        if enc(w) == enc(p) {
            lemma_enc_injective(w, p);
        }
    }
    assert forall|w: Seq<char>| #[trigger] word_ids(c1).contains_key(w) implies word_ids(c1)[w] == word_ids(c0).insert(p, id)[w] by {
        if enc(w) == enc(p) {
            lemma_enc_injective(w, p);
        }
    }
    assert(word_ids(c1) =~= word_ids(c0).insert(p, id));
}

/// The key of `s`.
pub fn enc_string(s: &str) -> (r: String)
    ensures
        r@ == enc(s@),
{
    let cs = crate::text::chars_of(s);
    let mut r = String::new();
    let mut i: usize = 0;
    while i < cs.len()
        invariant
            i <= cs@.len(),
            cs@ == s@,
            r@ == enc(cs@.subrange(0, i as int)),
        decreases cs@.len() - i,
    {
        let c = cs[i];
        assert(cs@.subrange(0, i + 1).drop_last() =~= cs@.subrange(0, i as int));
        assert(cs@.subrange(0, i + 1).last() == c);
        if c == '\0' {
            crate::text::push_char(&mut r, ESC);
            crate::text::push_char(&mut r, '0');
        } else if c == ESC {
            crate::text::push_char(&mut r, ESC);
            crate::text::push_char(&mut r, ESC);
        } else {
            crate::text::push_char(&mut r, c);
        }
        assert(r@ =~= enc(cs@.subrange(0, i + 1)));
        i = i + 1;
    }
    assert(cs@.subrange(0, cs@.len() as int) =~= cs@);
    r
}

} // verus!
