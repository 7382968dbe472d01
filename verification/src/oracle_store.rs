//! An ordered key-value store held in memory: byte-string keys, each found
//! once, kept in byte-lexicographic order.

use vstd::prelude::*;
use crate::bytes::{
    compare_bytes, copy_bytes, lemma_lex_lt_asymmetric, lemma_lex_lt_irreflexive,
    lemma_lex_lt_transitive, lemma_lex_total, lex_lt, starts_with, LexOrder,
};

verus! {

/// What a store holds: pairs of key and value, in the order of a scan.
pub type Entries = Seq<(Seq<u8>, Seq<u8>)>;

// ---------------------------------------------------------------------------
// Contents, as sequences
// ---------------------------------------------------------------------------

/// The keys stand in strictly rising order, so that none occurs twice.
pub open spec fn sorted(s: Entries) -> bool {
    forall|i: int, j: int| 0 <= i < j < s.len() ==> lex_lt(#[trigger] s[i].0, #[trigger] s[j].0)
}

/// The entries whose key comes before `key`, in their order.
pub open spec fn below(s: Entries, key: Seq<u8>) -> Entries
    decreases s.len(),
{
    if s.len() == 0 {
        s
    } else if lex_lt(s.last().0, key) {
        below(s.drop_last(), key).push(s.last())
    } else {
        below(s.drop_last(), key)
    }
}

/// The entries whose key comes after `key`, in their order.
pub open spec fn above(s: Entries, key: Seq<u8>) -> Entries
    decreases s.len(),
{
    if s.len() == 0 {
        s
    } else if lex_lt(key, s.last().0) {
        above(s.drop_last(), key).push(s.last())
    } else {
        above(s.drop_last(), key)
    }
}

/// The entries whose key is not `key`, in their order.
pub open spec fn without(s: Entries, key: Seq<u8>) -> Entries {
    below(s, key) + above(s, key)
}

/// The entries with `value` stored under `key`, in place of what was stored
/// there before, if anything was.
pub open spec fn with(s: Entries, key: Seq<u8>, value: Seq<u8>) -> Entries {
    below(s, key).push((key, value)) + above(s, key)
}

/// The entries whose key begins with `prefix`, in their order.
pub open spec fn with_prefix(s: Entries, prefix: Seq<u8>) -> Entries
    decreases s.len(),
{
    if s.len() == 0 {
        s
    } else if prefix.is_prefix_of(s.last().0) {
        with_prefix(s.drop_last(), prefix).push(s.last())
    } else {
        with_prefix(s.drop_last(), prefix)
    }
}

/// The value stored under `key`, if there is one.
pub open spec fn lookup(s: Entries, key: Seq<u8>) -> Option<Seq<u8>>
    decreases s.len(),
{
    if s.len() == 0 {
        None
    } else if s.last().0 == key {
        Some(s.last().1)
    } else {
        lookup(s.drop_last(), key)
    }
}

// ---------------------------------------------------------------------------
// Facts about sorted contents
// ---------------------------------------------------------------------------

/// Every entry of `below` and of `above` is an entry of `s` on the right
/// side of `key`, and neither is longer than `s`.
pub proof fn lemma_below_above_members(s: Entries, key: Seq<u8>)
    ensures
        below(s, key).len() <= s.len(),
        above(s, key).len() <= s.len(),
        forall|i: int|
            0 <= i < below(s, key).len() ==> lex_lt((#[trigger] below(s, key)[i]).0, key)
                && s.contains(below(s, key)[i]),
        forall|i: int|
            0 <= i < above(s, key).len() ==> lex_lt(key, (#[trigger] above(s, key)[i]).0)
                && s.contains(above(s, key)[i]),
    decreases s.len(),
{
    if s.len() > 0 {
        let t = s.drop_last();
        lemma_below_above_members(t, key);
        assert forall|i: int| 0 <= i < below(s, key).len() implies lex_lt(
            (#[trigger] below(s, key)[i]).0,
            key,
        ) && s.contains(below(s, key)[i]) by {
            if i < below(t, key).len() {
                let e = below(t, key)[i];
                assert(t.contains(e));
                let j = choose|j: int| 0 <= j < t.len() && t[j] == e;
                assert(s[j] == e);
            } else {
                assert(s[s.len() - 1] == s.last());
            }
        }
        assert forall|i: int| 0 <= i < above(s, key).len() implies lex_lt(
            key,
            (#[trigger] above(s, key)[i]).0,
        ) && s.contains(above(s, key)[i]) by {
            if i < above(t, key).len() {
                let e = above(t, key)[i];
                assert(t.contains(e));
                let j = choose|j: int| 0 <= j < t.len() && t[j] == e;
                assert(s[j] == e);
            } else {
                assert(s[s.len() - 1] == s.last());
            }
        }
    }
}

/// In sorted contents, the entries before `key` are the first `i` where
/// `i` is the place at which the keys stop coming before `key`.
pub proof fn lemma_below_is_front(s: Entries, key: Seq<u8>, i: int)
    requires
        sorted(s),
        0 <= i <= s.len(),
        forall|j: int| 0 <= j < i ==> lex_lt(#[trigger] s[j].0, key),
        i < s.len() ==> !lex_lt(s[i].0, key),
    ensures
        below(s, key) == s.take(i),
    decreases s.len(),
{
    if s.len() == 0 {
        assert(s.take(i) =~= s);
    } else {
        let t = s.drop_last();
        let n = s.len() - 1;
        if i == s.len() {
            lemma_below_is_front(t, key, n);
            assert(t.take(n).push(s.last()) =~= s.take(i));
        } else {
            assert(!lex_lt(s.last().0, key)) by {
                if i < n && lex_lt(s.last().0, key) {
                    assert(lex_lt(s[i].0, s[n].0));
                    lemma_lex_lt_transitive(s[i].0, s[n].0, key);
                }
            }
            lemma_below_is_front(t, key, i);
            assert(t.take(i) =~= s.take(i));
        }
    }
}

/// In sorted contents, the entries after `key` are those from `i` on where
/// `i` is the place at which the keys begin to come after `key`.
pub proof fn lemma_above_is_back(s: Entries, key: Seq<u8>, i: int)
    requires
        sorted(s),
        0 <= i <= s.len(),
        forall|j: int| i <= j < s.len() ==> lex_lt(key, #[trigger] s[j].0),
        i > 0 ==> !lex_lt(key, s[i - 1].0),
    ensures
        above(s, key) == s.skip(i),
    decreases s.len(),
{
    if s.len() == 0 {
        assert(s.skip(i) =~= s);
    } else {
        let t = s.drop_last();
        let n = s.len() - 1;
        if i == s.len() {
            assert(!lex_lt(key, s.last().0));
            assert forall|j: int| 0 <= j < n implies !lex_lt(key, #[trigger] t[j].0) by {
                if lex_lt(key, t[j].0) {
                    assert(lex_lt(s[j].0, s[n].0));
                    lemma_lex_lt_transitive(key, s[j].0, s[n].0);
                }
            }
            lemma_above_none(t, key);
            assert(s.skip(i) =~= Seq::<(Seq<u8>, Seq<u8>)>::empty());
        } else {
            assert(lex_lt(key, s[n].0));
            lemma_above_is_back(t, key, i);
            assert(t.skip(i).push(s.last()) =~= s.skip(i));
        }
    }
}

/// Where no key comes after `key`, nothing is above it.
pub proof fn lemma_above_none(s: Entries, key: Seq<u8>)
    requires
        forall|j: int| 0 <= j < s.len() ==> !lex_lt(key, #[trigger] s[j].0),
    ensures
        above(s, key) == Seq::<(Seq<u8>, Seq<u8>)>::empty(),
    decreases s.len(),
{
    if s.len() > 0 {
        let t = s.drop_last();
        assert(!lex_lt(key, s[s.len() - 1].0));
        assert forall|j: int| 0 <= j < t.len() implies !lex_lt(key, #[trigger] t[j].0) by {
            assert(t[j] == s[j]);
        }
        lemma_above_none(t, key);
    }
}

/// After a value was stored under a key, every entry is the new one or one
/// that was there before; after a key was removed, every entry is one that
/// was there before.
pub proof fn lemma_with_without_members(s: Entries, key: Seq<u8>, value: Seq<u8>)
    ensures
        forall|i: int|
            0 <= i < with(s, key, value).len() ==> (#[trigger] with(s, key, value)[i]) == (
                key,
                value,
            ) || s.contains(with(s, key, value)[i]),
        forall|i: int|
            0 <= i < without(s, key).len() ==> s.contains(#[trigger] without(s, key)[i]),
{
    let lo = below(s, key);
    let hi = above(s, key);
    let n = lo.len() as int;
    lemma_below_above_members(s, key);
    let r = with(s, key, value);
    assert forall|i: int| 0 <= i < r.len() implies (#[trigger] r[i]) == (key, value) || s.contains(
        r[i],
    ) by {
        if i < n {
            assert(r[i] == lo[i]);
        } else if i > n {
            assert(r[i] == hi[i - n - 1]);
        }
    }
    let w = without(s, key);
    assert forall|i: int| 0 <= i < w.len() implies s.contains(#[trigger] w[i]) by {
        if i < n {
            assert(w[i] == lo[i]);
        } else {
            assert(w[i] == hi[i - n]);
        }
    }
}

/// Storing under a key keeps sorted contents sorted.
pub proof fn lemma_with_sorted(s: Entries, key: Seq<u8>, value: Seq<u8>)
    requires
        sorted(s),
    ensures
        sorted(with(s, key, value)),
{
    lemma_sides_sorted(s, key);
    let lo = below(s, key);
    let hi = above(s, key);
    let r = with(s, key, value);
    lemma_below_above_members(s, key);
    assert forall|i: int, j: int| 0 <= i < j < r.len() implies lex_lt(
        #[trigger] r[i].0,
        #[trigger] r[j].0,
    ) by {
        let n = lo.len() as int;
        if j < n {
            assert(r[i] == lo[i] && r[j] == lo[j]);
        } else if j == n {
            assert(r[i] == lo[i]);
        } else if i == n {
            assert(r[j] == hi[j - n - 1]);
        } else if i > n {
            assert(r[i] == hi[i - n - 1] && r[j] == hi[j - n - 1]);
        } else {
            assert(r[i] == lo[i] && r[j] == hi[j - n - 1]);
            lemma_lex_lt_transitive(lo[i].0, key, hi[j - n - 1].0);
        }
    }
}

/// Removing a key keeps sorted contents sorted.
pub proof fn lemma_without_sorted(s: Entries, key: Seq<u8>)
    requires
        sorted(s),
    ensures
        sorted(without(s, key)),
{
    lemma_sides_sorted(s, key);
    let lo = below(s, key);
    let hi = above(s, key);
    let r = without(s, key);
    lemma_below_above_members(s, key);
    assert forall|i: int, j: int| 0 <= i < j < r.len() implies lex_lt(
        #[trigger] r[i].0,
        #[trigger] r[j].0,
    ) by {
        let n = lo.len() as int;
        if j < n {
            assert(r[i] == lo[i] && r[j] == lo[j]);
        } else if i >= n {
            assert(r[i] == hi[i - n] && r[j] == hi[j - n]);
        } else {
            assert(r[i] == lo[i] && r[j] == hi[j - n]);
            lemma_lex_lt_transitive(lo[i].0, key, hi[j - n].0);
        }
    }
}

/// Both sides of a key in sorted contents are sorted.
pub proof fn lemma_sides_sorted(s: Entries, key: Seq<u8>)
    requires
        sorted(s),
    ensures
        sorted(below(s, key)),
        sorted(above(s, key)),
    decreases s.len(),
{
    if s.len() > 0 {
        let t = s.drop_last();
        assert(sorted(t)) by {
            assert forall|i: int, j: int| 0 <= i < j < t.len() implies lex_lt(
                #[trigger] t[i].0,
                #[trigger] t[j].0,
            ) by {
                assert(t[i] == s[i] && t[j] == s[j]);
            }
        }
        lemma_sides_sorted(t, key);
        lemma_below_above_members(t, key);
        let last = s.last();
        assert forall|i: int, j: int| 0 <= i < j < below(s, key).len() implies lex_lt(
            #[trigger] below(s, key)[i].0,
            #[trigger] below(s, key)[j].0,
        ) by {
            if j == below(t, key).len() {
                let e = below(t, key)[i];
                assert(t.contains(e));
                let k = choose|k: int| 0 <= k < t.len() && t[k] == e;
                assert(s[k] == e);
                assert(lex_lt(s[k].0, s[s.len() - 1].0));
            }
        }
        assert forall|i: int, j: int| 0 <= i < j < above(s, key).len() implies lex_lt(
            #[trigger] above(s, key)[i].0,
            #[trigger] above(s, key)[j].0,
        ) by {
            if j == above(t, key).len() {
                let e = above(t, key)[i];
                assert(t.contains(e));
                let k = choose|k: int| 0 <= k < t.len() && t[k] == e;
                assert(s[k] == e);
                assert(lex_lt(s[k].0, s[s.len() - 1].0));
            }
        }
    }
}

/// In sorted contents, the value at a place is what a lookup of the key at
/// that place finds.
pub proof fn lemma_lookup_found(s: Entries, i: int)
    requires
        sorted(s),
        0 <= i < s.len(),
    ensures
        lookup(s, s[i].0) == Some(s[i].1),
    decreases s.len(),
{
    let n = s.len() - 1;
    if i < n {
        let t = s.drop_last();
        assert(lex_lt(s[i].0, s[n].0));
        lemma_lex_lt_asymmetric(s[i].0, s[n].0);
        assert(sorted(t)) by {
            assert forall|a: int, b: int| 0 <= a < b < t.len() implies lex_lt(
                #[trigger] t[a].0,
                #[trigger] t[b].0,
            ) by {
                assert(t[a] == s[a] && t[b] == s[b]);
            }
        }
        assert(t[i] == s[i]);
        lemma_lookup_found(t, i);
    }
}

/// A lookup finds nothing where no entry has the key, and only then.
pub proof fn lemma_lookup_none(s: Entries, key: Seq<u8>)
    ensures
        lookup(s, key) is None <==> forall|j: int| 0 <= j < s.len() ==> (#[trigger] s[j]).0 != key,
    decreases s.len(),
{
    if s.len() > 0 {
        let t = s.drop_last();
        lemma_lookup_none(t, key);
        if s.last().0 == key {
            assert(s[s.len() - 1].0 == key);
        } else if lookup(t, key) is None {
            assert forall|j: int| 0 <= j < s.len() implies (#[trigger] s[j]).0 != key by {
                if j < t.len() {
                    assert(t[j] == s[j]);
                }
            }
        } else {
            let j = choose|j: int| 0 <= j < t.len() && (#[trigger] t[j]).0 == key;
            assert(s[j].0 == key);
        }
    }
}

/// What a lookup finds is an entry.
pub proof fn lemma_lookup_member(s: Entries, key: Seq<u8>)
    ensures
        lookup(s, key) is Some ==> s.contains((key, lookup(s, key)->0)),
    decreases s.len(),
{
    if s.len() > 0 {
        if s.last().0 == key {
            assert(s[s.len() - 1] == (key, lookup(s, key)->0));
        } else {
            let t = s.drop_last();
            lemma_lookup_member(t, key);
            if lookup(t, key) is Some {
                let e = (key, lookup(t, key)->0);
                let j = choose|j: int| 0 <= j < t.len() && t[j] == e;
                assert(s[j] == e);
            }
        }
    }
}

/// Every entry with a key before `key` is among those below it, and every
/// entry with a key after `key` among those above it.
pub proof fn lemma_below_above_complete(s: Entries, key: Seq<u8>, e: (Seq<u8>, Seq<u8>))
    requires
        s.contains(e),
    ensures
        lex_lt(e.0, key) ==> below(s, key).contains(e),
        lex_lt(key, e.0) ==> above(s, key).contains(e),
    decreases s.len(),
{
    let t = s.drop_last();
    let j = choose|j: int| 0 <= j < s.len() && s[j] == e;
    if j < s.len() - 1 {
        assert(t[j] == e);
        lemma_below_above_complete(t, key, e);
        if lex_lt(e.0, key) {
            let i = choose|i: int| 0 <= i < below(t, key).len() && below(t, key)[i] == e;
            assert(below(s, key)[i] == e);
        }
        if lex_lt(key, e.0) {
            let i = choose|i: int| 0 <= i < above(t, key).len() && above(t, key)[i] == e;
            assert(above(s, key)[i] == e);
        }
    } else {
        if lex_lt(e.0, key) {
            assert(below(s, key)[below(t, key).len() as int] == e);
        }
        if lex_lt(key, e.0) {
            assert(above(s, key)[above(t, key).len() as int] == e);
        }
    }
}

/// After a value was stored under a key, a lookup of that key finds the
/// value, and a lookup of any other key finds what it found before.
pub proof fn lemma_lookup_with(s: Entries, key: Seq<u8>, value: Seq<u8>, other: Seq<u8>)
    requires
        sorted(s),
    ensures
        lookup(with(s, key, value), other) == if other == key {
            Some(value)
        } else {
            lookup(s, other)
        },
{
    let lo = below(s, key);
    let hi = above(s, key);
    let r = with(s, key, value);
    let n = lo.len() as int;
    lemma_with_sorted(s, key, value);
    lemma_below_above_members(s, key);
    if other == key {
        assert(r[n] == (key, value));
        lemma_lookup_found(r, n);
    } else if lookup(s, other) is Some {
        let e = (other, lookup(s, other)->0);
        lemma_lookup_member(s, other);
        lemma_below_above_complete(s, key, e);
        lemma_lex_total(other, key);
        if lex_lt(other, key) {
            let i = choose|i: int| 0 <= i < lo.len() && lo[i] == e;
            assert(r[i] == e);
            lemma_lookup_found(r, i);
        } else {
            let i = choose|i: int| 0 <= i < hi.len() && hi[i] == e;
            assert(r[n + 1 + i] == e);
            lemma_lookup_found(r, n + 1 + i);
        }
    } else {
        lemma_lookup_none(s, other);
        lemma_lookup_none(r, other);
        assert forall|j: int| 0 <= j < r.len() implies (#[trigger] r[j]).0 != other by {
            if j < n {
                assert(r[j] == lo[j]);
                let k = choose|k: int| 0 <= k < s.len() && s[k] == lo[j];
            } else if j > n {
                assert(r[j] == hi[j - n - 1]);
                let k = choose|k: int| 0 <= k < s.len() && s[k] == hi[j - n - 1];
            }
        }
    }
}

/// After a key was removed, a lookup of that key finds nothing, and a
/// lookup of any other key finds what it found before.
pub proof fn lemma_lookup_without(s: Entries, key: Seq<u8>, other: Seq<u8>)
    requires
        sorted(s),
    ensures
        lookup(without(s, key), other) == if other == key {
            None
        } else {
            lookup(s, other)
        },
{
    let lo = below(s, key);
    let hi = above(s, key);
    let r = without(s, key);
    let n = lo.len() as int;
    lemma_without_sorted(s, key);
    lemma_below_above_members(s, key);
    if other != key && lookup(s, other) is Some {
        let e = (other, lookup(s, other)->0);
        lemma_lookup_member(s, other);
        lemma_below_above_complete(s, key, e);
        lemma_lex_total(other, key);
        if lex_lt(other, key) {
            let i = choose|i: int| 0 <= i < lo.len() && lo[i] == e;
            assert(r[i] == e);
            lemma_lookup_found(r, i);
        } else {
            let i = choose|i: int| 0 <= i < hi.len() && hi[i] == e;
            assert(r[n + i] == e);
            lemma_lookup_found(r, n + i);
        }
    } else {
        lemma_lookup_none(s, other);
        lemma_lookup_none(r, other);
        assert forall|j: int| 0 <= j < r.len() implies (#[trigger] r[j]).0 != other by {
            if j < n {
                assert(r[j] == lo[j]);
                let k = choose|k: int| 0 <= k < s.len() && s[k] == lo[j];
                lemma_lex_lt_asymmetric(lo[j].0, key);
            } else {
                assert(r[j] == hi[j - n]);
                let k = choose|k: int| 0 <= k < s.len() && s[k] == hi[j - n];
                lemma_lex_lt_asymmetric(key, hi[j - n].0);
            }
        }
    }
}

// ---------------------------------------------------------------------------
// The store
// ---------------------------------------------------------------------------

/// One pair of key and value.
#[derive(Debug)]
pub struct Entry {
    /// The key.
    pub key: Vec<u8>,
    /// What is stored under the key.
    pub value: Vec<u8>,
}

impl View for Entry {
    type V = (Seq<u8>, Seq<u8>);

    open spec fn view(&self) -> (Seq<u8>, Seq<u8>) {
        (self.key@, self.value@)
    }
}

impl Clone for Entry {
    fn clone(&self) -> (r: Self)
        ensures
            r@ == self@,
    {
        Entry { key: copy_bytes(self.key.as_slice()), value: copy_bytes(self.value.as_slice()) }
    }
}

/// The pairs that a list of entries holds.
pub open spec fn views(entries: Seq<Entry>) -> Entries {
    Seq::new(entries.len(), |i: int| entries[i]@)
}

/// An ordered store of byte strings under byte-string keys.
pub struct Store {
    entries: Vec<Entry>,
}

impl View for Store {
    type V = Entries;

    closed spec fn view(&self) -> Entries {
        views(self.entries@)
    }
}

impl Store {
    #[verifier::type_invariant]
    spec fn inv(self) -> bool {
        sorted(views(self.entries@))
    }

    /// An empty store.
    pub fn new() -> (store: Store)
        ensures
            store@ == Seq::<(Seq<u8>, Seq<u8>)>::empty(),
    {
        let store = Store { entries: Vec::new() };
        assert(store@ =~= Seq::<(Seq<u8>, Seq<u8>)>::empty());
        store
    }

    /// The number of entries. The keys of a store always stand in strictly
    /// rising order.
    pub fn len(&self) -> (n: usize)
        ensures
            n == self@.len(),
            sorted(self@),
    {
        proof {
            use_type_invariant(self);
        }
        self.entries.len()
    }

    /// The place of the first key that does not come before `key`, and
    /// whether that key is `key`. The place is found by halving the range
    /// in which it can lie.
    fn position(&self, key: &[u8]) -> (r: (usize, bool))
        ensures
            sorted(self@),
            r.0 <= self@.len(),
            forall|j: int| 0 <= j < r.0 ==> lex_lt(#[trigger] self@[j].0, key@),
            forall|j: int| r.0 <= j < self@.len() ==> !lex_lt(#[trigger] self@[j].0, key@),
            r.1 <==> r.0 < self@.len() && self@[r.0 as int].0 == key@,
            !r.1 ==> forall|j: int| r.0 <= j < self@.len() ==> lex_lt(key@, #[trigger] self@[j].0),
            r.1 ==> forall|j: int| r.0 < j < self@.len() ==> lex_lt(key@, #[trigger] self@[j].0),
    {
        proof {
            use_type_invariant(self);
        }
        let ghost s = self@;
        let mut lo: usize = 0;
        let mut hi: usize = self.entries.len();
        while lo < hi
            invariant
                lo <= hi <= s.len(),
                s == self@,
                s.len() == self.entries@.len(),
                sorted(s),
                forall|j: int| 0 <= j < lo ==> lex_lt(#[trigger] s[j].0, key@),
                forall|j: int| hi <= j < s.len() ==> lex_lt(key@, #[trigger] s[j].0),
            decreases hi - lo,
        {
            let mid = lo + (hi - lo) / 2;
            match compare_bytes(self.entries[mid].key.as_slice(), key) {
                LexOrder::Before => {
                    proof {
                        assert forall|j: int| 0 <= j < mid + 1 implies lex_lt(
                            #[trigger] s[j].0,
                            key@,
                        ) by {
                            if j < mid {
                                assert(lex_lt(s[j].0, s[mid as int].0));
                                lemma_lex_lt_transitive(s[j].0, s[mid as int].0, key@);
                            }
                        }
                    }
                    lo = mid + 1;
                },
                LexOrder::Same => {
                    proof {
                        lemma_lex_lt_irreflexive(key@);
                        assert forall|j: int| 0 <= j < mid implies lex_lt(
                            #[trigger] s[j].0,
                            key@,
                        ) by {
                            assert(lex_lt(s[j].0, s[mid as int].0));
                        }
                        assert forall|j: int| mid < j < s.len() implies lex_lt(
                            key@,
                            #[trigger] s[j].0,
                        ) && !lex_lt(s[j].0, key@) by {
                            assert(lex_lt(s[mid as int].0, s[j].0));
                            lemma_lex_lt_asymmetric(key@, s[j].0);
                        }
                    }
                    return (mid, true);
                },
                LexOrder::After => {
                    proof {
                        assert forall|j: int| mid <= j < s.len() implies lex_lt(
                            key@,
                            #[trigger] s[j].0,
                        ) by {
                            if j > mid {
                                assert(lex_lt(s[mid as int].0, s[j].0));
                                lemma_lex_lt_transitive(key@, s[mid as int].0, s[j].0);
                            }
                        }
                    }
                    hi = mid;
                },
            }
        }
        proof {
            assert forall|j: int| lo <= j < s.len() implies !lex_lt(#[trigger] s[j].0, key@) by {
                lemma_lex_lt_asymmetric(key@, s[j].0);
            }
            if lo < s.len() {
                lemma_lex_lt_asymmetric(key@, s[lo as int].0);
            }
        }
        (lo, false)
    }

    /// The value stored under `key`, if there is one.
    pub fn get(&self, key: &[u8]) -> (r: Option<Vec<u8>>)
        ensures
            r is Some <==> lookup(self@, key@) is Some,
            r is Some ==> Some(r->0@) == lookup(self@, key@),
    {
        let (i, found) = self.position(key);
        proof {
            let s = self@;
            if found {
                lemma_lookup_found(s, i as int);
            } else {
                lemma_lookup_none(s, key@);
                assert forall|j: int| 0 <= j < s.len() implies (#[trigger] s[j]).0 != key@ by {
                    if j < i {
                        lemma_lex_lt_asymmetric(s[j].0, key@);
                    } else {
                        lemma_lex_lt_asymmetric(key@, s[j].0);
                    }
                }
            }
        }
        if found {
            Some(copy_bytes(self.entries[i].value.as_slice()))
        } else {
            None
        }
    }

    /// Stores `value` under `key`, in place of what was stored there before,
    /// if anything was.
    pub fn put(&mut self, key: Vec<u8>, value: Vec<u8>)
        ensures
            final(self)@ == with(old(self)@, key@, value@),
    {
        let (i, found) = self.position(key.as_slice());
        let ghost s = self@;
        let mut entries: Vec<Entry> = Vec::new();
        core::mem::swap(&mut self.entries, &mut entries);
        assert(views(entries@) == s);
        if found {
            entries.remove(i);
        }
        let ghost k = key@;
        let ghost v = value@;
        entries.insert(i, Entry { key, value });
        proof {
            let after = if found {
                i + 1
            } else {
                i as int
            };
            lemma_below_is_front(s, k, i as int);
            assert forall|j: int| 0 < after && j == after - 1 implies !lex_lt(k, s[j].0) by {
                if found {
                    lemma_lex_lt_irreflexive(k);
                } else {
                    lemma_lex_lt_asymmetric(s[j].0, k);
                }
            }
            lemma_above_is_back(s, k, after);
            assert(views(entries@) =~= s.take(i as int).push((k, v)) + s.skip(after));
            lemma_with_sorted(s, k, v);
        }
        self.entries = entries;
    }

    /// Removes `key` and what is stored under it. Tells whether the key was
    /// there.
    pub fn delete(&mut self, key: &[u8]) -> (was_there: bool)
        ensures
            final(self)@ == without(old(self)@, key@),
            was_there == lookup(old(self)@, key@) is Some,
    {
        let (i, found) = self.position(key);
        let ghost s = self@;
        let ghost k = key@;
        proof {
            let after = if found {
                i + 1
            } else {
                i as int
            };
            lemma_below_is_front(s, k, i as int);
            assert forall|j: int| 0 < after && j == after - 1 implies !lex_lt(k, s[j].0) by {
                if found {
                    lemma_lex_lt_irreflexive(k);
                } else {
                    lemma_lex_lt_asymmetric(s[j].0, k);
                }
            }
            lemma_above_is_back(s, k, after);
            lemma_without_sorted(s, k);
            if found {
                lemma_lookup_found(s, i as int);
            } else {
                lemma_lookup_none(s, k);
                assert forall|j: int| 0 <= j < s.len() implies (#[trigger] s[j]).0 != k by {
                    if j < i {
                        lemma_lex_lt_asymmetric(s[j].0, k);
                    } else {
                        lemma_lex_lt_asymmetric(k, s[j].0);
                    }
                }
                assert(s =~= s.take(i as int) + s.skip(i as int));
            }
        }
        if found {
            let mut entries: Vec<Entry> = Vec::new();
            core::mem::swap(&mut self.entries, &mut entries);
            entries.remove(i);
            assert(views(entries@) =~= s.take(i as int) + s.skip(i + 1));
            self.entries = entries;
        }
        found
    }

    /// The entries whose key begins with `prefix`, in the order of their keys.
    pub fn scan(&self, prefix: &[u8]) -> (found: Vec<Entry>)
        ensures
            views(found@) == with_prefix(self@, prefix@),
            sorted(self@),
    {
        proof {
            use_type_invariant(self);
        }
        let mut found: Vec<Entry> = Vec::new();
        let mut i: usize = 0;
        assert(self@.take(0) =~= Seq::<(Seq<u8>, Seq<u8>)>::empty());
        while i < self.entries.len()
            invariant
                i <= self.entries@.len(),
                self@.len() == self.entries@.len(),
                views(found@) =~= with_prefix(self@.take(i as int), prefix@),
            decreases self.entries@.len() - i,
        {
            let ghost before = views(found@);
            assert(self@.take(i + 1).drop_last() =~= self@.take(i as int));
            assert(self@.take(i + 1).last() == self.entries@[i as int]@);
            if starts_with(self.entries[i].key.as_slice(), prefix) {
                found.push(self.entries[i].clone());
                assert(views(found@) =~= before.push(self.entries@[i as int]@));
            }
            i = i + 1;
        }
        assert(self@.take(i as int) =~= self@);
        found
    }

    /// A store with the same entries.
    pub fn duplicate(&self) -> (copy: Store)
        ensures
            copy@ == self@,
    {
        proof {
            use_type_invariant(self);
        }
        let mut entries: Vec<Entry> = Vec::new();
        let mut i: usize = 0;
        while i < self.entries.len()
            invariant
                i <= self.entries@.len(),
                views(entries@) =~= views(self.entries@).take(i as int),
            decreases self.entries@.len() - i,
        {
            let ghost before = views(entries@);
            entries.push(self.entries[i].clone());
            assert(views(entries@) =~= before.push(self.entries@[i as int]@));
            i = i + 1;
        }
        assert(views(self.entries@).take(i as int) =~= views(self.entries@));
        Store { entries }
    }
}

} // verus!
