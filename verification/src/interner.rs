//! String and numeric-literal interners.
//!
//! The string interner deduplicates text spans into stable integer handles:
//! interning a span that is already present returns the handle it received
//! the first time, and the content behind a handle never changes afterwards.

use vstd::prelude::*;
use crate::token::LitNum;

verus! {

/// First position of `s` in `v`; `v.len()` when `s` is absent.
pub open spec fn first_index(v: Seq<Seq<char>>, s: Seq<char>) -> int
    decreases v.len(),
{
    if v.len() == 0 {
        0
    } else if v[0] == s {
        0
    } else {
        1 + first_index(v.drop_first(), s)
    }
}

/// Table contents after interning `s`: unchanged when `s` is already present,
/// otherwise extended by `s` at the end.
pub open spec fn insert_view(v: Seq<Seq<char>>, s: Seq<char>) -> Seq<Seq<char>> {
    if v.contains(s) {
        v
    } else {
        v.push(s)
    }
}

/// Handle handed out when `s` is interned into a table holding `v`: the first
/// position that already holds `s`, or the fresh position at the end.
pub open spec fn insert_key(v: Seq<Seq<char>>, s: Seq<char>) -> int {
    if v.contains(s) {
        first_index(v, s)
    } else {
        v.len() as int
    }
}

/// Table contents after interning every span of `ss`, in order.
pub open spec fn insert_all(v: Seq<Seq<char>>, ss: Seq<Seq<char>>) -> Seq<Seq<char>>
    decreases ss.len(),
{
    if ss.len() == 0 {
        v
    } else {
        insert_all(insert_view(v, ss[0]), ss.drop_first())
    }
}

proof fn lemma_first_index_at(v: Seq<Seq<char>>, s: Seq<char>, i: int)
    requires
        0 <= i < v.len(),
        v[i] == s,
        forall|j: int| 0 <= j < i ==> v[j] != s,
    ensures
        v.contains(s),
        first_index(v, s) == i,
    decreases i,
{
    assert(v.contains(s));
    if i == 0 {
    } else {
        let w = v.drop_first();
        assert(forall|j: int| 0 <= j < i - 1 ==> w[j] == v[j + 1] && w[j] != s);
        lemma_first_index_at(w, s, i - 1);
    }
}

proof fn lemma_first_index_props(v: Seq<Seq<char>>, s: Seq<char>)
    requires
        v.contains(s),
    ensures
        0 <= first_index(v, s) < v.len(),
        v[first_index(v, s)] == s,
        forall|j: int| 0 <= j < first_index(v, s) ==> v[j] != s,
    decreases v.len(),
{
    if v[0] == s {
    } else {
        let w = v.drop_first();
        let k = choose|k: int| 0 <= k < v.len() && v[k] == s;
        assert(w[k - 1] == s);
        assert(w.contains(s));
        lemma_first_index_props(w, s);
        assert(forall|j: int| 1 <= j < first_index(v, s) ==> v[j] == w[j - 1] && v[j] != s);
    }
}

proof fn lemma_first_index_prefix(v1: Seq<Seq<char>>, v2: Seq<Seq<char>>, s: Seq<char>)
    requires
        v1.is_prefix_of(v2),
        v1.contains(s),
    ensures
        v2.contains(s),
        first_index(v2, s) == first_index(v1, s),
{
    lemma_first_index_props(v1, s);
    let k = first_index(v1, s);
    assert(v2[k] == s);
    assert(forall|j: int| 0 <= j < k ==> v2[j] == v1[j] && v2[j] != s);
    lemma_first_index_at(v2, s, k);
}

proof fn lemma_insert_all_prefix(v: Seq<Seq<char>>, ss: Seq<Seq<char>>)
    ensures
        v.is_prefix_of(insert_all(v, ss)),
    decreases ss.len(),
{
    if ss.len() == 0 {
        assert(v.is_prefix_of(v));
    } else {
        let v1 = insert_view(v, ss[0]);
        lemma_insert_all_prefix(v1, ss.drop_first());
        let v2 = insert_all(v1, ss.drop_first());
        assert(v.is_prefix_of(v1));
        assert(v1 =~= v2.subrange(0, v1.len() as int));
        assert(v =~= v2.subrange(0, v.len() as int));
    }
}

/// Round-trip law of the interner: the handle obtained for a span `s` resolves
/// to `s`, it still does so after any number of further spans are interned,
/// and interning `s` again at that point yields the same handle and leaves the
/// table unchanged.
pub proof fn lemma_interner_round_trip(v0: Seq<Seq<char>>, s: Seq<char>, later: Seq<Seq<char>>)
    ensures
        ({
            let k = insert_key(v0, s);
            let v1 = insert_view(v0, s);
            let v2 = insert_all(v1, later);
            &&& 0 <= k < v1.len() && v1[k] == s
            &&& k < v2.len() && v2[k] == s
            &&& insert_key(v2, s) == k
            &&& insert_view(v2, s) == v2
        }),
{
    let k = insert_key(v0, s);
    let v1 = insert_view(v0, s);
    let v2 = insert_all(v1, later);
    if v0.contains(s) {
        lemma_first_index_props(v0, s);
    } else {
        assert(v1[k] == s);
        assert(forall|j: int| 0 <= j < k ==> v1[j] == v0[j] && v1[j] != s);
    }
    lemma_first_index_at(v1, s, k);
    lemma_insert_all_prefix(v1, later);
    lemma_first_index_prefix(v1, v2, s);
    assert(insert_view(v2, s) == v2);
}

/// Relies on String's FromIterator impl over char: collecting yields the
/// characters in order as one string.
#[verifier::external_body]
fn string_from_chars(v: &Vec<char>) -> (s: String)
    ensures
        s@ == v@,
{
    v.iter().collect()
}

/// Content equality of two text spans, decided byte by byte on their UTF-8
/// encodings; equal encodings mean equal character sequences.
pub fn str_eq(a: &str, b: &str) -> (r: bool)
    ensures
        r == (a@ == b@),
{
    let ab = a.as_bytes();
    let bb = b.as_bytes();
    if ab.len() != bb.len() {
        return false;
    }
    let n = ab.len();
    let mut i: usize = 0;
    while i < n
        invariant
            n == ab@.len() == bb@.len(),
            i <= n,
            ab@ == vstd::utf8::encode_utf8(a@),
            bb@ == vstd::utf8::encode_utf8(b@),
            forall|j: int| 0 <= j < i ==> ab@[j] == bb@[j],
        decreases n - i,
    {
        if ab[i] != bb[i] {
            return false;
        }
        i += 1;
    }
    proof {
        assert(ab@ =~= bb@);
        vstd::utf8::encode_utf8_decode_utf8(a@);
        vstd::utf8::encode_utf8_decode_utf8(b@);
    }
    true
}

/// Deduplicating table from text spans to dense integer handles. Handles are
/// positions in an append-only store, so they stay valid for the table's
/// lifetime and always resolve to the content they were issued for.
pub struct StringInterner {
    items: Vec<String>,
}

impl View for StringInterner {
    type V = Seq<Seq<char>>;

    closed spec fn view(&self) -> Seq<Seq<char>> {
        Seq::new(self.items@.len(), |i: int| self.items@[i]@)
    }
}

impl StringInterner {
    /// No two positions of the table hold the same content.
    pub open spec fn wf(&self) -> bool {
        forall|i: int, j: int| 0 <= i < j < self@.len() ==> self@[i] != self@[j]
    }

    /// A table with nothing interned yet.
    pub fn empty() -> (r: StringInterner)
        ensures
            r@ == Seq::<Seq<char>>::empty(),
            r.wf(),
    {
        let r = StringInterner { items: Vec::new() };
        proof {
            assert(r@ =~= Seq::<Seq<char>>::empty());
        }
        r
    }

    /// Interns a span: returns the handle issued when equal content was
    /// interned before, otherwise stores the span under the next free handle.
    pub fn insert(&mut self, string: &str) -> (key: usize)
        requires
            old(self).wf(),
        ensures
            final(self).wf(),
            final(self)@ == insert_view(old(self)@, string@),
            key as int == insert_key(old(self)@, string@),
    {
        let ghost v0 = self@;
        let n = self.items.len();
        let mut i: usize = 0;
        while i < n
            invariant
                self@ == v0,
                self.wf(),
                n == self.items@.len(),
                v0.len() == n,
                i <= n,
                forall|j: int| 0 <= j < i ==> v0[j] != string@,
            decreases n - i,
        {
            if str_eq(self.items[i].as_str(), string) {
                proof {
                    lemma_first_index_at(v0, string@, i as int);
                }
                return i;
            }
            i += 1;
        }
        proof {
            assert(!v0.contains(string@));
        }
        let key = self.items.len();
        self.items.push(string.to_owned());
        proof {
            assert(self@ =~= v0.push(string@));
        }
        key
    }

    /// Interns a span given as its character sequence, as [`Self::insert`]
    /// does for one given as a string slice.
    pub fn insert_chars(&mut self, span: &Vec<char>) -> (key: usize)
        requires
            old(self).wf(),
        ensures
            final(self).wf(),
            final(self)@ == insert_view(old(self)@, span@),
            key as int == insert_key(old(self)@, span@),
    {
        let s = string_from_chars(span);
        self.insert(s.as_str())
    }

    /// The exact content interned under `key`. Only handles issued by this
    /// table are meaningful.
    pub fn get(&self, key: usize) -> (r: &str)
        requires
            key < self@.len(),
        ensures
            r@ == self@[key as int],
    {
        self.items[key].as_str()
    }

    /// How many distinct spans have been interned.
    pub fn len(&self) -> (r: usize)
        ensures
            r == self@.len(),
    {
        self.items.len()
    }
}

/// Interner for numeric-literal payloads, so that a literal's full value
/// fits in a token as a handle. Unlike the string interner it does not
/// deduplicate: every insertion takes the next handle.
pub struct NumInterner {
    index: Vec<LitNum>,
}

impl View for NumInterner {
    type V = Seq<LitNum>;

    closed spec fn view(&self) -> Seq<LitNum> {
        self.index@
    }
}

impl NumInterner {
    /// A table with nothing inserted yet.
    pub fn empty() -> (r: NumInterner)
        ensures
            r@ == Seq::<LitNum>::empty(),
    {
        NumInterner { index: Vec::new() }
    }

    /// Stores the value under the next free handle and returns that handle.
    pub fn insert(&mut self, num: &LitNum) -> (key: usize)
        ensures
            final(self)@ == old(self)@.push(*num),
            key == old(self)@.len(),
    {
        let ret = self.index.len();
        self.index.push(*num);
        ret
    }

    /// The exact value stored under `key`. Only handles issued by this table
    /// are meaningful.
    pub fn get(&self, key: usize) -> (r: LitNum)
        requires
            key < self@.len(),
        ensures
            r == self@[key as int],
    {
        self.index[key]
    }

    /// How many values have been stored.
    pub fn len(&self) -> (r: usize)
        ensures
            r == self@.len(),
    {
        self.index.len()
    }
}

} // verus!
