//! The ordered identity map.

use core::cmp::Ordering;
use vstd::prelude::*;

use crate::iter::{Drain, IntoIter, IntoKeys, IntoValues, Iter, IterMut, Keys, Values, ValuesMut};
use crate::order::{lemma_lt_transitive, lemma_lt_trichotomy, lt, TotalOrder};

verus! {

/// Whether a sequence of entries is sorted by key in strictly ascending
/// order. Strictness makes the keys pairwise distinct as well.
pub open spec fn entries_sorted<K: TotalOrder, V>(s: Seq<(K, V)>) -> bool {
    forall|i: int, j: int| #![trigger s[i], s[j]] 0 <= i < j < s.len() ==> lt(s[i].0, s[j].0)
}

/// Whether some entry of `s` carries the key `k`.
pub open spec fn has_key<K, V>(s: Seq<(K, V)>, k: K) -> bool {
    exists|i: int| 0 <= i < s.len() && s[i].0 == k
}

/// The index of the entry carrying `k`; meaningful only when `has_key`
/// holds, and unique when the entries are sorted.
pub open spec fn key_index<K, V>(s: Seq<(K, V)>, k: K) -> int {
    choose|i: int| 0 <= i < s.len() && s[i].0 == k
}

/// The value stored under `k`, if any.
pub open spec fn value_of<K, V>(s: Seq<(K, V)>, k: K) -> Option<V> {
    if has_key(s, k) {
        Some(s[key_index(s, k)].1)
    } else {
        None
    }
}

/// The position at which `k` must be placed to keep `s` sorted: the length
/// of the leading run of entries whose keys sort strictly before `k`.
pub open spec fn insert_pos<K: TotalOrder, V>(s: Seq<(K, V)>, k: K) -> int
    decreases s.len(),
{
    if s.len() == 0 {
        0
    } else if lt(s[0].0, k) {
        1 + insert_pos(s.subrange(1, s.len() as int), k)
    } else {
        0
    }
}

/// The entry sequence after storing `v` under `k`: on a present key the
/// entry is overwritten in place, otherwise a new entry enters at the
/// position that keeps the sequence sorted.
pub open spec fn inserted<K: TotalOrder, V>(s: Seq<(K, V)>, k: K, v: V) -> Seq<(K, V)> {
    if has_key(s, k) {
        s.update(key_index(s, k), (k, v))
    } else {
        s.insert(insert_pos(s, k), (k, v))
    }
}

/// The entry sequence after discarding the entry under `k`, if present.
pub open spec fn removed<K: TotalOrder, V>(s: Seq<(K, V)>, k: K) -> Seq<(K, V)> {
    if has_key(s, k) {
        s.remove(key_index(s, k))
    } else {
        s
    }
}

/// In a sorted sequence, no key appears at two indices.
pub proof fn lemma_sorted_distinct<K: TotalOrder, V>(s: Seq<(K, V)>, i: int, j: int)
    requires
        entries_sorted(s),
        0 <= i < s.len(),
        0 <= j < s.len(),
        s[i].0 == s[j].0,
    ensures
        i == j,
{
    if i < j {
        assert(lt(s[i].0, s[j].0));
        assert(false);
    }
    if j < i {
        assert(lt(s[j].0, s[i].0));
        assert(false);
    }
}

/// In a sorted sequence holding `k`, `key_index` is the one index of the
/// entry carrying `k`.
pub proof fn lemma_key_index<K: TotalOrder, V>(s: Seq<(K, V)>, k: K)
    requires
        entries_sorted(s),
        has_key(s, k),
    ensures
        0 <= key_index(s, k) < s.len(),
        s[key_index(s, k)].0 == k,
        forall|i: int| 0 <= i < s.len() && s[i].0 == k ==> i == key_index(s, k),
{
    let idx = key_index(s, k);
    assert(0 <= idx < s.len() && s[idx].0 == k);
    assert forall|i: int| 0 <= i < s.len() && s[i].0 == k implies i == idx by {
        lemma_sorted_distinct(s, i, idx);
    }
}

/// In a sorted sequence, `insert_pos` splits the entries into those whose
/// keys sort strictly before `k` and those whose keys do not.
pub proof fn lemma_insert_pos<K: TotalOrder, V>(s: Seq<(K, V)>, k: K)
    requires
        entries_sorted(s),
    ensures
        0 <= insert_pos(s, k) <= s.len(),
        forall|i: int| #![trigger s[i]] 0 <= i < insert_pos(s, k) ==> lt(s[i].0, k),
        forall|i: int| #![trigger s[i]] insert_pos(s, k) <= i < s.len() ==> !lt(s[i].0, k),
    decreases s.len(),
{
    if s.len() == 0 {
    } else if lt(s[0].0, k) {
        let tail = s.subrange(1, s.len() as int);
        assert(entries_sorted(tail)) by {
            assert forall|i: int, j: int| 0 <= i < j < tail.len() implies lt(
                tail[i].0,
                tail[j].0,
            ) by {
                assert(tail[i] == s[i + 1]);
                assert(tail[j] == s[j + 1]);
            }
        }
        lemma_insert_pos(tail, k);
        let p = insert_pos(s, k);
        assert forall|i: int| #![trigger s[i]] 0 <= i < p implies lt(s[i].0, k) by {
            if i > 0 {
                assert(tail[i - 1] == s[i]);
            }
        }
        assert forall|i: int| #![trigger s[i]] p <= i < s.len() implies !lt(s[i].0, k) by {
            assert(tail[i - 1] == s[i]);
        }
    } else {
        assert forall|i: int| #![trigger s[i]] 0 <= i < s.len() implies !lt(s[i].0, k) by {
            if i > 0 && lt(s[i].0, k) {
                lemma_lt_transitive(s[0].0, s[i].0, k);
            }
        }
    }
}

/// A position with the splitting property of `lemma_insert_pos` is
/// `insert_pos` itself.
pub proof fn lemma_insert_pos_unique<K: TotalOrder, V>(s: Seq<(K, V)>, k: K, p: int)
    requires
        entries_sorted(s),
        0 <= p <= s.len(),
        forall|i: int| #![trigger s[i]] 0 <= i < p ==> lt(s[i].0, k),
        forall|i: int| #![trigger s[i]] p <= i < s.len() ==> !lt(s[i].0, k),
    ensures
        p == insert_pos(s, k),
{
    let q = insert_pos(s, k);
    lemma_insert_pos(s, k);
    if p < q {
        assert(lt(s[p].0, k));
        assert(false);
    }
    if q < p {
        assert(lt(s[q].0, k));
        assert(false);
    }
}

/// Storing a value keeps the entries sorted.
pub proof fn lemma_sorted_after_insert<K: TotalOrder, V>(s: Seq<(K, V)>, k: K, v: V)
    requires
        entries_sorted(s),
    ensures
        entries_sorted(inserted(s, k, v)),
{
    let t = inserted(s, k, v);
    if has_key(s, k) {
        lemma_key_index(s, k);
        let w = key_index(s, k);
        assert forall|i: int, j: int| 0 <= i < j < t.len() implies lt(t[i].0, t[j].0) by {
            assert(t[i].0 == s[i].0);
            assert(t[j].0 == s[j].0);
            assert(s[i] == s[i] && s[j] == s[j]);
        }
    } else {
        let p = insert_pos(s, k);
        lemma_insert_pos(s, k);
        assert forall|i: int| #![trigger s[i]] p <= i < s.len() implies lt(k, s[i].0) by {
            lemma_lt_trichotomy(s[i].0, k);
        }
        assert forall|i: int, j: int| 0 <= i < j < t.len() implies lt(t[i].0, t[j].0) by {
            if i < p {
                assert(t[i] == s[i]);
            } else if i == p {
                assert(t[i].0 == k);
            } else {
                assert(t[i] == s[i - 1]);
            }
            if j < p {
                assert(t[j] == s[j]);
            } else if j == p {
                assert(t[j].0 == k);
            } else {
                assert(t[j] == s[j - 1]);
            }
            if i < p && j == p {
                assert(lt(s[i].0, k));
            } else if i == p && j > p {
                assert(lt(k, s[j - 1].0));
            }
        }
    }
}

/// Discarding an entry at any index keeps the entries sorted.
pub proof fn lemma_sorted_after_remove_at<K: TotalOrder, V>(s: Seq<(K, V)>, r: int)
    requires
        entries_sorted(s),
        0 <= r < s.len(),
    ensures
        entries_sorted(s.remove(r)),
{
    let t = s.remove(r);
    assert forall|i: int, j: int| 0 <= i < j < t.len() implies lt(t[i].0, t[j].0) by {
        if i < r {
            assert(t[i] == s[i]);
        } else {
            assert(t[i] == s[i + 1]);
        }
        if j < r {
            assert(t[j] == s[j]);
        } else {
            assert(t[j] == s[j + 1]);
        }
    }
}

/// Taking a front or back part of a sorted sequence keeps it sorted.
pub proof fn lemma_sorted_subrange<K: TotalOrder, V>(s: Seq<(K, V)>, a: int, b: int)
    requires
        entries_sorted(s),
        0 <= a <= b <= s.len(),
    ensures
        entries_sorted(s.subrange(a, b)),
{
    let t = s.subrange(a, b);
    assert forall|i: int, j: int| 0 <= i < j < t.len() implies lt(t[i].0, t[j].0) by {
        assert(t[i] == s[a + i]);
        assert(t[j] == s[a + j]);
    }
}

/// Every entry of a sorted sequence is found by lookup: its key is present,
/// `key_index` names its position, and `value_of` returns its value.
pub proof fn lemma_entry_found<K: TotalOrder, V>(s: Seq<(K, V)>, i: int)
    requires
        entries_sorted(s),
        0 <= i < s.len(),
    ensures
        has_key(s, s[i].0),
        key_index(s, s[i].0) == i,
        value_of(s, s[i].0) == Some(s[i].1),
{
    assert(has_key(s, s[i].0));
    lemma_key_index(s, s[i].0);
}

/// How storing a value changes lookups: the stored key maps to the new
/// value, every other key keeps its binding, and the length grows by one
/// exactly when the key was absent.
pub proof fn lemma_inserted_value<K: TotalOrder, V>(s: Seq<(K, V)>, k: K, v: V)
    requires
        entries_sorted(s),
    ensures
        entries_sorted(inserted(s, k, v)),
        has_key(inserted(s, k, v), k),
        value_of(inserted(s, k, v), k) == Some(v),
        forall|k2: K| k2 != k ==> has_key(inserted(s, k, v), k2) == has_key(s, k2),
        forall|k2: K| k2 != k ==> value_of(inserted(s, k, v), k2) == value_of(s, k2),
        inserted(s, k, v).len() == if has_key(s, k) {
            s.len()
        } else {
            s.len() + 1
        },
{
    let t = inserted(s, k, v);
    lemma_sorted_after_insert(s, k, v);
    if has_key(s, k) {
        lemma_key_index(s, k);
        let w = key_index(s, k);
        assert(t[w] == (k, v));
        lemma_entry_found(t, w);
        assert forall|k2: K| k2 != k implies has_key(t, k2) == has_key(s, k2) && value_of(t, k2)
            == value_of(s, k2) by {
            if has_key(s, k2) {
                lemma_key_index(s, k2);
                let j = key_index(s, k2);
                assert(t[j] == s[j]);
                lemma_entry_found(t, j);
                lemma_entry_found(s, j);
            }
            if has_key(t, k2) {
                lemma_key_index(t, k2);
                let j = key_index(t, k2);
                assert(t[j] == s[j]);
                lemma_entry_found(s, j);
                lemma_entry_found(t, j);
            }
        }
    } else {
        let p = insert_pos(s, k);
        lemma_insert_pos(s, k);
        assert(t[p] == (k, v));
        lemma_entry_found(t, p);
        assert forall|k2: K| k2 != k implies has_key(t, k2) == has_key(s, k2) && value_of(t, k2)
            == value_of(s, k2) by {
            if has_key(s, k2) {
                lemma_key_index(s, k2);
                let j = key_index(s, k2);
                lemma_entry_found(s, j);
                if j < p {
                    assert(t[j] == s[j]);
                    lemma_entry_found(t, j);
                } else {
                    assert(t[j + 1] == s[j]);
                    lemma_entry_found(t, j + 1);
                }
            }
            if has_key(t, k2) {
                lemma_key_index(t, k2);
                let j = key_index(t, k2);
                lemma_entry_found(t, j);
                if j < p {
                    assert(t[j] == s[j]);
                    lemma_entry_found(s, j);
                } else {
                    assert(j != p);
                    assert(t[j] == s[j - 1]);
                    lemma_entry_found(s, j - 1);
                }
            }
        }
    }
}

/// How discarding a key changes lookups: the key is gone, every other key
/// keeps its binding, and the length shrinks by one exactly when the key
/// was present.
pub proof fn lemma_removed_value<K: TotalOrder, V>(s: Seq<(K, V)>, k: K)
    requires
        entries_sorted(s),
    ensures
        entries_sorted(removed(s, k)),
        !has_key(removed(s, k), k),
        forall|k2: K| k2 != k ==> has_key(removed(s, k), k2) == has_key(s, k2),
        forall|k2: K| k2 != k ==> value_of(removed(s, k), k2) == value_of(s, k2),
        removed(s, k).len() == if has_key(s, k) {
            s.len() - 1
        } else {
            s.len() as int
        },
{
    let t = removed(s, k);
    if has_key(s, k) {
        lemma_key_index(s, k);
        let w = key_index(s, k);
        lemma_sorted_after_remove_at(s, w);
        assert forall|i: int| 0 <= i < t.len() implies t[i].0 != k by {
            if i < w {
                assert(t[i] == s[i]);
                if t[i].0 == k {
                    lemma_sorted_distinct(s, i, w);
                }
            } else {
                assert(t[i] == s[i + 1]);
                if t[i].0 == k {
                    lemma_sorted_distinct(s, i + 1, w);
                }
            }
        }
        assert(!has_key(t, k));
        assert forall|k2: K| k2 != k implies has_key(t, k2) == has_key(s, k2) && value_of(t, k2)
            == value_of(s, k2) by {
            if has_key(s, k2) {
                lemma_key_index(s, k2);
                let j = key_index(s, k2);
                lemma_entry_found(s, j);
                if j < w {
                    assert(t[j] == s[j]);
                    lemma_entry_found(t, j);
                } else {
                    assert(j != w);
                    assert(t[j - 1] == s[j]);
                    lemma_entry_found(t, j - 1);
                }
            }
            if has_key(t, k2) {
                lemma_key_index(t, k2);
                let j = key_index(t, k2);
                lemma_entry_found(t, j);
                if j < w {
                    assert(t[j] == s[j]);
                    lemma_entry_found(s, j);
                } else {
                    assert(t[j] == s[j + 1]);
                    lemma_entry_found(s, j + 1);
                }
            }
        }
    }
}

/// The entry sequence after storing every entry of `t` in turn, front
/// first: on duplicate keys the last value given wins.
pub open spec fn inserted_all<K: TotalOrder, V>(s: Seq<(K, V)>, t: Seq<(K, V)>) -> Seq<(K, V)>
    decreases t.len(),
{
    if t.len() == 0 {
        s
    } else {
        inserted_all(inserted(s, t[0].0, t[0].1), t.subrange(1, t.len() as int))
    }
}

/// Relies on Vec::capacity; std documents that a vector's capacity is
/// always at least its length.
#[verifier::external_body]
fn vec_capacity<T>(v: &Vec<T>) -> (r: usize)
    ensures
        r >= v@.len(),
{
    v.capacity()
}

/// Relies on Vec::shrink_to: it can only change spare capacity, keeping the
/// contents as they are.
#[verifier::external_body]
fn vec_shrink_to<T>(v: &mut Vec<T>, min_capacity: usize)
    ensures
        final(v)@ == old(v)@,
{
    v.shrink_to(min_capacity)
}

/// Relies on Vec::shrink_to_fit: it can only change spare capacity, keeping
/// the contents as they are.
#[verifier::external_body]
fn vec_shrink_to_fit<T>(v: &mut Vec<T>)
    ensures
        final(v)@ == old(v)@,
{
    v.shrink_to_fit()
}

/// Overwriting the value at a position, keeping the key there, keeps the
/// entries sorted, whatever the new value.
pub proof fn lemma_sorted_update_value<K: TotalOrder, V>(s: Seq<(K, V)>, i: int)
    requires
        entries_sorted(s),
        0 <= i < s.len(),
    ensures
        forall|v: V| entries_sorted(#[trigger] s.update(i, (s[i].0, v))),
{
    assert forall|v: V| entries_sorted(#[trigger] s.update(i, (s[i].0, v))) by {
        let t = s.update(i, (s[i].0, v));
        assert forall|a: int, b: int| 0 <= a < b < t.len() implies lt(t[a].0, t[b].0) by {
            assert(t[a].0 == s[a].0);
            assert(t[b].0 == s[b].0);
        }
    }
}

/// An ordered identity map.
///
/// The map associates keys with values, each key unique. Keys are used
/// directly -- compared through their [`TotalOrder`] -- rather than hashed,
/// and the entries are kept in one buffer sorted by key in strictly
/// ascending order. Lookup, insertion and removal locate keys by binary
/// search.
///
/// The abstract value of a map (its view `@`) is its entry sequence; a map
/// is well formed ([`IdentityMap::wf`]) when that sequence is sorted.
#[derive(Clone, Debug, PartialEq, Eq)]
pub struct IdentityMap<K: TotalOrder, V> {
    buf: Vec<(K, V)>,
}

impl<K: TotalOrder, V> View for IdentityMap<K, V> {
    type V = Seq<(K, V)>;

    closed spec fn view(&self) -> Seq<(K, V)> {
        self.buf@
    }
}

impl<K: TotalOrder, V> IdentityMap<K, V> {
    /// The map's invariant: entries sorted by key, strictly ascending.
    pub open spec fn wf(&self) -> bool {
        entries_sorted(self@)
    }

    /// Constructs a new, empty identity map.
    pub fn new() -> (r: Self)
        ensures
            r@ == Seq::<(K, V)>::empty(),
            r.wf(),
    {
        IdentityMap { buf: Vec::new() }
    }

    /// Preallocates a new identity map for at least `cap` entries.
    ///
    /// # Panics
    ///
    /// The process is aborted if the buffer cannot be allocated.
    pub fn with_capacity(cap: usize) -> (r: Self)
        ensures
            r@ == Seq::<(K, V)>::empty(),
            r.wf(),
    {
        IdentityMap { buf: Vec::with_capacity(cap) }
    }

    /// Retrieves the current length of the map.
    pub fn len(&self) -> (r: usize)
        ensures
            r == self@.len(),
    {
        self.buf.len()
    }

    /// Tests if the map is empty.
    pub fn is_empty(&self) -> (r: bool)
        ensures
            r == (self@.len() == 0),
    {
        self.buf.is_empty()
    }

    /// Clears the map, dropping all entries.
    pub fn clear(&mut self)
        ensures
            final(self)@ == Seq::<(K, V)>::empty(),
            final(self).wf(),
    {
        self.buf.clear();
    }

    /// Gets a slice over the map's entries, sorted by key.
    pub fn as_slice(&self) -> (r: &[(K, V)])
        ensures
            r@ == self@,
    {
        self.buf.as_slice()
    }

    /// Gets the index of `key` in the buffer: the exact index on a hit,
    /// wrapped in `Ok`, or the index at which the key would have to enter
    /// to keep the buffer sorted, wrapped in `Err`.
    fn get_index(&self, key: &K) -> (r: Result<usize, usize>)
        requires
            self.wf(),
        ensures
            match r {
                Ok(i) => has_key(self@, *key) && i == key_index(self@, *key),
                Err(i) => !has_key(self@, *key) && i == insert_pos(self@, *key),
            },
    {
        let ghost s = self@;
        let mut lo: usize = 0;
        let mut hi: usize = self.buf.len();
        while lo < hi
            invariant
                self.wf(),
                s == self@,
                0 <= lo <= hi <= s.len(),
                forall|i: int| #![trigger s[i]] 0 <= i < lo ==> lt(s[i].0, *key),
                forall|i: int| #![trigger s[i]] hi <= i < s.len() ==> lt(*key, s[i].0),
            decreases hi - lo,
        {
            let mid: usize = lo + (hi - lo) / 2;
            match self.buf[mid].0.compare(key) {
                Ordering::Less => {
                    proof {
                        assert forall|i: int| #![trigger s[i]] 0 <= i < mid + 1 implies lt(
                            s[i].0,
                            *key,
                        ) by {
                            if i < mid {
                                lemma_lt_transitive(s[i].0, s[mid as int].0, *key);
                            }
                        }
                    }
                    lo = mid + 1;
                }
                Ordering::Equal => {
                    proof {
                        assert(s[mid as int].0 == *key);
                        lemma_key_index(s, *key);
                    }
                    return Ok(mid);
                }
                Ordering::Greater => {
                    proof {
                        assert(lt(*key, s[mid as int].0));
                        assert forall|i: int| #![trigger s[i]] mid <= i < s.len() implies lt(
                            *key,
                            s[i].0,
                        ) by {
                            if i > mid {
                                lemma_lt_transitive(*key, s[mid as int].0, s[i].0);
                            }
                        }
                    }
                    hi = mid;
                }
            }
        }
        proof {
            assert forall|i: int| #![trigger s[i]] lo <= i < s.len() implies !lt(s[i].0, *key) by {
                lemma_lt_trichotomy(s[i].0, *key);
            }
            if has_key(s, *key) {
                let w = choose|i: int| 0 <= i < s.len() && s[i].0 == *key;
                assert(s[w].0 == *key);
                assert(false);
            }
            lemma_insert_pos_unique(s, *key, lo as int);
        }
        Err(lo)
    }

    /// Checks if the map contains the specified key.
    pub fn contains_key(&self, key: &K) -> (r: bool)
        requires
            self.wf(),
        ensures
            r == has_key(self@, *key),
    {
        match self.get_index(key) {
            Ok(_) => true,
            Err(_) => false,
        }
    }

    /// Borrows the value associated with a key.
    pub fn get(&self, key: &K) -> (r: Option<&V>)
        requires
            self.wf(),
        ensures
            match r {
                Some(v) => value_of(self@, *key) == Some(*v),
                None => !has_key(self@, *key),
            },
    {
        match self.get_index(key) {
            Ok(i) => Some(&self.buf[i].1),
            Err(_) => None,
        }
    }

    /// Borrows the entry carrying a key.
    pub fn get_key_value(&self, key: &K) -> (r: Option<(&K, &V)>)
        requires
            self.wf(),
        ensures
            match r {
                Some((k, v)) => {
                    &&& has_key(self@, *key)
                    &&& *k == *key
                    &&& value_of(self@, *key) == Some(*v)
                },
                None => !has_key(self@, *key),
            },
    {
        match self.get_index(key) {
            Ok(i) => {
                let entry = &self.buf[i];
                Some((&entry.0, &entry.1))
            }
            Err(_) => None,
        }
    }

    /// Inserts a new entry into the map.
    ///
    /// If the key is already present, its value is overwritten in place and
    /// the previous value is returned; otherwise the entry enters at the
    /// position that keeps the buffer sorted and nothing is returned.
    ///
    /// # Panics
    ///
    /// The process is aborted if the buffer must grow and cannot.
    pub fn insert(&mut self, key: K, value: V) -> (r: Option<V>)
        requires
            old(self).wf(),
        ensures
            final(self).wf(),
            final(self)@ == inserted(old(self)@, key, value),
            r == value_of(old(self)@, key),
    {
        let ghost s = old(self)@;
        proof {
            lemma_sorted_after_insert(s, key, value);
        }
        match self.get_index(&key) {
            Ok(i) => {
                let entry = &mut self.buf[i];
                let mut pair = (key, value);
                core::mem::swap(entry, &mut pair);
                proof {
                    assert(self@ == s.update(i as int, (key, value)));
                    assert(pair == s[i as int]);
                }
                Some(pair.1)
            }
            Err(i) => {
                proof {
                    lemma_insert_pos(s, key);
                }
                self.buf.insert(i, (key, value));
                None
            }
        }
    }

    /// Removes the entry carrying the given key, returning it.
    ///
    /// If no entry carries the key, the map is left unchanged and nothing
    /// is returned.
    pub fn remove_entry(&mut self, key: &K) -> (r: Option<(K, V)>)
        requires
            old(self).wf(),
        ensures
            final(self).wf(),
            final(self)@ == removed(old(self)@, *key),
            r == if has_key(old(self)@, *key) {
                Some(old(self)@[key_index(old(self)@, *key)])
            } else {
                None::<(K, V)>
            },
    {
        let ghost s = old(self)@;
        match self.get_index(key) {
            Ok(i) => {
                proof {
                    lemma_sorted_after_remove_at(s, i as int);
                }
                let entry = self.buf.remove(i);
                Some(entry)
            }
            Err(_) => None,
        }
    }

    /// Removes the entry carrying the given key, returning its value.
    ///
    /// If no entry carries the key, the map is left unchanged and nothing
    /// is returned.
    pub fn remove(&mut self, key: &K) -> (r: Option<V>)
        requires
            old(self).wf(),
        ensures
            final(self).wf(),
            final(self)@ == removed(old(self)@, *key),
            r == value_of(old(self)@, *key),
    {
        proof {
            if has_key(old(self)@, *key) {
                lemma_key_index(old(self)@, *key);
            }
        }
        match self.remove_entry(key) {
            Some((_, v)) => Some(v),
            None => None,
        }
    }

    /// Borrows the first entry: the one carrying the least key.
    pub fn first_key_value(&self) -> (r: Option<(&K, &V)>)
        ensures
            match r {
                Some((k, v)) => self@.len() > 0 && *k == self@[0].0 && *v == self@[0].1,
                None => self@.len() == 0,
            },
    {
        if self.buf.len() == 0 {
            None
        } else {
            let entry = &self.buf[0];
            Some((&entry.0, &entry.1))
        }
    }

    /// Borrows the last entry: the one carrying the greatest key.
    pub fn last_key_value(&self) -> (r: Option<(&K, &V)>)
        ensures
            match r {
                Some((k, v)) => {
                    &&& self@.len() > 0
                    &&& *k == self@[self@.len() - 1].0
                    &&& *v == self@[self@.len() - 1].1
                },
                None => self@.len() == 0,
            },
    {
        if self.buf.len() == 0 {
            None
        } else {
            let entry = &self.buf[self.buf.len() - 1];
            Some((&entry.0, &entry.1))
        }
    }

    /// Pops the first entry: the one carrying the least key.
    pub fn pop_first(&mut self) -> (r: Option<(K, V)>)
        requires
            old(self).wf(),
        ensures
            final(self).wf(),
            match r {
                Some(e) => {
                    &&& old(self)@.len() > 0
                    &&& e == old(self)@[0]
                    &&& final(self)@ == old(self)@.subrange(1, old(self)@.len() as int)
                },
                None => old(self)@.len() == 0 && final(self)@ == old(self)@,
            },
    {
        let ghost s = self@;
        if self.buf.len() == 0 {
            None
        } else {
            let entry = self.buf.remove(0);
            proof {
                assert(s.remove(0) =~= s.subrange(1, s.len() as int));
                lemma_sorted_subrange(s, 1, s.len() as int);
            }
            Some(entry)
        }
    }

    /// Pops the last entry: the one carrying the greatest key.
    pub fn pop_last(&mut self) -> (r: Option<(K, V)>)
        requires
            old(self).wf(),
        ensures
            final(self).wf(),
            match r {
                Some(e) => {
                    &&& old(self)@.len() > 0
                    &&& e == old(self)@[old(self)@.len() - 1]
                    &&& final(self)@ == old(self)@.subrange(0, old(self)@.len() - 1)
                },
                None => old(self)@.len() == 0 && final(self)@ == old(self)@,
            },
    {
        let ghost s = self@;
        proof {
            if s.len() > 0 {
                lemma_sorted_subrange(s, 0, s.len() - 1);
            }
        }
        self.buf.pop()
    }

    /// Reserves room for at least `additional` further entries.
    ///
    /// # Panics
    ///
    /// The process is aborted if the buffer cannot be grown.
    pub fn reserve(&mut self, additional: usize)
        ensures
            final(self)@ == old(self)@,
    {
        self.buf.reserve(additional);
    }

    /// Retrieves the total capacity of the map: how many entries it can
    /// hold without growing its buffer. The capacity is never below the
    /// length.
    pub fn capacity(&self) -> (r: usize)
        ensures
            r >= self@.len(),
    {
        vec_capacity(&self.buf)
    }

    /// Shrinks the map's capacity towards `min_capacity`, keeping the
    /// entries as they are.
    pub fn shrink_to(&mut self, min_capacity: usize)
        ensures
            final(self)@ == old(self)@,
    {
        vec_shrink_to(&mut self.buf, min_capacity)
    }

    /// Shrinks the map's capacity towards its length, keeping the entries
    /// as they are.
    pub fn shrink_to_fit(&mut self)
        ensures
            final(self)@ == old(self)@,
    {
        vec_shrink_to_fit(&mut self.buf)
    }

    /// Replaces the entry carrying the given key with `(key, value)`,
    /// returning the previous entry. A map without the key is unchanged.
    pub fn replace(&mut self, key: K, value: V) -> (r: Option<(K, V)>)
        requires
            old(self).wf(),
        ensures
            final(self).wf(),
            r == if has_key(old(self)@, key) {
                Some(old(self)@[key_index(old(self)@, key)])
            } else {
                None::<(K, V)>
            },
            has_key(old(self)@, key) ==> final(self)@ == old(self)@.update(
                key_index(old(self)@, key),
                (key, value),
            ),
            !has_key(old(self)@, key) ==> final(self)@ == old(self)@,
    {
        let ghost s = self@;
        proof {
            lemma_sorted_after_insert(s, key, value);
        }
        match self.get_index(&key) {
            Ok(i) => {
                let entry = &mut self.buf[i];
                let mut pair = (key, value);
                core::mem::swap(entry, &mut pair);
                proof {
                    assert(inserted(s, key, value) == s.update(i as int, (key, value)));
                }
                Some(pair)
            }
            Err(_) => None,
        }
    }

    /// Inserts every entry of another map into this one, front first, so
    /// that on duplicate keys the other map's value wins. The other map is
    /// left empty.
    ///
    /// # Panics
    ///
    /// The process is aborted if the buffer must grow and cannot.
    pub fn append(&mut self, other: &mut Self)
        requires
            old(self).wf(),
            old(other).wf(),
        ensures
            final(self).wf(),
            final(self)@ == inserted_all(old(self)@, old(other)@),
            final(other)@ == Seq::<(K, V)>::empty(),
    {
        let ghost s0 = self@;
        let ghost t0 = other@;
        while other.len() > 0
            invariant
                self.wf(),
                other.wf(),
                inserted_all(self@, other@) == inserted_all(s0, t0),
            decreases other@.len(),
        {
            let ghost sp = self@;
            let ghost tp = other@;
            match other.pop_first() {
                Some(entry) => {
                    proof {
                        assert(inserted_all(sp, tp) == inserted_all(
                            inserted(sp, tp[0].0, tp[0].1),
                            tp.subrange(1, tp.len() as int),
                        ));
                    }
                    self.insert(entry.0, entry.1);
                }
                None => {}
            }
        }
    }

    /// Builds a map from a list of entries, storing them front first, so
    /// that duplicate keys collapse to the last value given.
    ///
    /// # Panics
    ///
    /// The process is aborted if the buffer cannot be allocated.
    pub fn from_entries(list: Vec<(K, V)>) -> (r: Self)
        ensures
            r.wf(),
            r@ == inserted_all(Seq::<(K, V)>::empty(), list@),
    {
        let ghost l0 = list@;
        let mut list = list;
        let mut map = Self::new();
        while list.len() > 0
            invariant
                map.wf(),
                inserted_all(map@, list@) == inserted_all(Seq::<(K, V)>::empty(), l0),
            decreases list@.len(),
        {
            let ghost mp = map@;
            let ghost lp = list@;
            let entry = list.remove(0);
            proof {
                assert(lp.remove(0) =~= lp.subrange(1, lp.len() as int));
                assert(inserted_all(mp, lp) == inserted_all(
                    inserted(mp, lp[0].0, lp[0].1),
                    lp.subrange(1, lp.len() as int),
                ));
            }
            map.insert(entry.0, entry.1);
        }
        map
    }

    /// Gets an iterator of the contained entries, in key order.
    pub fn iter(&self) -> (r: Iter<'_, K, V>)
        ensures
            r.wf(),
            r.remaining() == self@,
    {
        Iter::new(self)
    }

    /// Gets an iterator of the contained keys, in ascending order.
    pub fn keys(&self) -> (r: Keys<'_, K, V>)
        ensures
            r.wf(),
            r.remaining() == self@,
    {
        Keys::new(self)
    }

    /// Gets an iterator of the contained values, in key order.
    pub fn values(&self) -> (r: Values<'_, K, V>)
        ensures
            r.wf(),
            r.remaining() == self@,
    {
        Values::new(self)
    }

    /// Gets a cursor over the positions of the contained entries, for a
    /// mutating pass: read each yielded position with
    /// [`IdentityMap::get_entry`] and write its value with
    /// [`IdentityMap::set_value`].
    pub fn iter_mut(&self) -> (r: IterMut)
        ensures
            r.wf(),
            r.cursor() == 0,
            r.stop() == self@.len(),
    {
        IterMut::new(self.len())
    }

    /// Gets a cursor over the positions of the contained values, for a
    /// mutating pass over the values alone.
    pub fn values_mut(&self) -> (r: ValuesMut)
        ensures
            r.wf(),
            r.cursor() == 0,
            r.stop() == self@.len(),
    {
        ValuesMut::new(self.len())
    }

    /// Converts the map into an owning iterator of its entries.
    pub fn into_iter(self) -> (r: IntoIter<K, V>)
        ensures
            r.remaining() == self@,
    {
        IntoIter::new(self.into_entries())
    }

    /// Converts the map into an owning iterator of its keys.
    pub fn into_keys(self) -> (r: IntoKeys<K, V>)
        ensures
            r.remaining() == self@,
    {
        IntoKeys::new(self.into_entries())
    }

    /// Converts the map into an owning iterator of its values.
    pub fn into_values(self) -> (r: IntoValues<K, V>)
        ensures
            r.remaining() == self@,
    {
        IntoValues::new(self.into_entries())
    }

    /// Drains the map: every entry is detached at once, leaving the map
    /// empty, and the returned iterator yields the detached entries.
    pub fn drain(&mut self) -> (r: Drain<K, V>)
        ensures
            final(self)@ == Seq::<(K, V)>::empty(),
            final(self).wf(),
            r.remaining() == old(self)@,
    {
        Drain::new(self.take_entries())
    }

    /// Borrows the entry at a buffer position; positions follow key order.
    pub fn get_entry(&self, index: usize) -> (r: (&K, &V))
        requires
            index < self@.len(),
        ensures
            *r.0 == self@[index as int].0,
            *r.1 == self@[index as int].1,
    {
        let entry = &self.buf[index];
        (&entry.0, &entry.1)
    }

    /// Swaps the value at a buffer position for `value`, returning the
    /// previous value. The key there is untouched, so the order invariant
    /// is kept.
    pub fn set_value(&mut self, index: usize, value: V) -> (r: V)
        requires
            old(self).wf(),
            index < old(self)@.len(),
        ensures
            final(self).wf(),
            r == old(self)@[index as int].1,
            final(self)@ == old(self)@.update(
                index as int,
                (old(self)@[index as int].0, value),
            ),
    {
        let ghost s = self@;
        let entry = &mut self.buf[index];
        let mut v = value;
        core::mem::swap(&mut entry.1, &mut v);
        proof {
            let t = s.update(index as int, (s[index as int].0, value));
            assert forall|a: int, b: int| 0 <= a < b < t.len() implies lt(t[a].0, t[b].0) by {
                assert(t[a].0 == s[a].0);
                assert(t[b].0 == s[b].0);
            }
        }
        v
    }

    /// Mutably borrows the value associated with a key.
    ///
    /// While the borrow lives, the caller may overwrite the value; the key
    /// beside it is untouched, so the order invariant is kept whatever is
    /// written.
    pub fn get_mut(&mut self, key: &K) -> (r: Option<&mut V>)
        requires
            old(self).wf(),
        ensures
            match r {
                Some(v) => {
                    &&& has_key(old(self)@, *key)
                    &&& *v == old(self)@[key_index(old(self)@, *key)].1
                    &&& final(self)@ == old(self)@.update(
                        key_index(old(self)@, *key),
                        (old(self)@[key_index(old(self)@, *key)].0, *final(v)),
                    )
                    &&& final(self).wf()
                },
                None => {
                    &&& !has_key(old(self)@, *key)
                    &&& final(self)@ == old(self)@
                    &&& final(self).wf()
                },
            },
    {
        let ghost s = self@;
        match self.get_index(key) {
            Ok(i) => {
                proof {
                    lemma_sorted_update_value(s, i as int);
                }
                let entry = &mut self.buf[i];
                Some(&mut entry.1)
            }
            Err(_) => None,
        }
    }

    /// Retains only the entries a predicate approves.
    ///
    /// Entries are tested in key order. Every surviving entry was approved
    /// and keeps its binding and its place relative to the other survivors;
    /// every discarded entry was rejected.
    pub fn retain<F: Fn(&K, &V) -> bool>(&mut self, f: F)
        requires
            old(self).wf(),
            forall|k: K, v: V| #[trigger] call_requires(f, (&k, &v)),
        ensures
            final(self).wf(),
            forall|i: int|
                0 <= i < final(self)@.len() ==> call_ensures(
                    f,
                    (&(#[trigger] final(self)@[i]).0, &final(self)@[i].1),
                    true,
                ),
            forall|k2: K| #[trigger]
                has_key(final(self)@, k2) ==> has_key(old(self)@, k2) && value_of(
                    final(self)@,
                    k2,
                ) == value_of(old(self)@, k2),
            forall|i: int|
                0 <= i < old(self)@.len() && !has_key(final(self)@, (#[trigger] old(self)@[i]).0)
                    ==> call_ensures(f, (&old(self)@[i].0, &old(self)@[i].1), false),
    {
        let ghost s = self@;
        let mut rest: Vec<(K, V)> = Vec::new();
        core::mem::swap(&mut self.buf, &mut rest);
        proof {
            assert(s.subrange(0, s.len() as int) =~= s);
        }
        let mut kept: Vec<(K, V)> = Vec::new();
        while rest.len() > 0
            invariant
                entries_sorted(s),
                rest@.len() <= s.len(),
                rest@ == s.subrange(s.len() - rest@.len(), s.len() as int),
                entries_sorted(kept@),
                forall|a: int|
                    0 <= a < kept@.len() ==> exists|j: int|
                        0 <= j < s.len() - rest@.len() && #[trigger] kept@[a] == s[j],
                forall|a: int|
                    0 <= a < kept@.len() ==> call_ensures(
                        f,
                        (&(#[trigger] kept@[a]).0, &kept@[a].1),
                        true,
                    ),
                forall|j: int|
                    0 <= j < s.len() - rest@.len() ==> kept@.contains(#[trigger] s[j])
                        || call_ensures(f, (&s[j].0, &s[j].1), false),
                forall|k2: K, v2: V| #[trigger] call_requires(f, (&k2, &v2)),
            decreases rest@.len(),
        {
            let ghost rp = rest@;
            let ghost kp = kept@;
            let ghost done = s.len() - rp.len();
            let e = rest.remove(0);
            proof {
                assert(e == s[done]);
                assert(rest@ =~= s.subrange(s.len() - rest@.len(), s.len() as int));
            }
            let keep_it = f(&e.0, &e.1);
            if keep_it {
                kept.push(e);
                proof {
                    assert forall|a: int, b: int| 0 <= a < b < kept@.len() implies lt(
                        kept@[a].0,
                        kept@[b].0,
                    ) by {
                        if b == kept@.len() - 1 {
                            assert(kept@[a] == kp[a]);
                            let j = choose|j: int| 0 <= j < done && kp[a] == s[j];
                            assert(lt(s[j].0, s[done].0));
                        }
                    }
                    assert forall|j: int|
                        0 <= j < s.len() - rest@.len() implies kept@.contains(#[trigger] s[j])
                            || call_ensures(f, (&s[j].0, &s[j].1), false) by {
                        if j < done {
                            if kp.contains(s[j]) {
                                let a = choose|a: int| 0 <= a < kp.len() && kp[a] == s[j];
                                assert(kept@[a] == s[j]);
                            }
                        } else {
                            assert(kept@[kept@.len() - 1] == s[done]);
                        }
                    }
                }
            } else {
                proof {
                    assert forall|j: int|
                        0 <= j < s.len() - rest@.len() implies kept@.contains(#[trigger] s[j])
                            || call_ensures(f, (&s[j].0, &s[j].1), false) by {}
                }
            }
        }
        self.buf = kept;
        proof {
            assert(rest@ =~= Seq::<(K, V)>::empty());
            assert forall|k2: K| #[trigger] has_key(self@, k2) implies has_key(s, k2) && value_of(
                self@,
                k2,
            ) == value_of(s, k2) by {
                lemma_key_index(self@, k2);
                let a = key_index(self@, k2);
                lemma_entry_found(self@, a);
                let j = choose|j: int| 0 <= j < s.len() && self@[a] == s[j];
                lemma_entry_found(s, j);
            }
            assert forall|i: int|
                0 <= i < s.len() && !has_key(self@, (#[trigger] s[i]).0) implies call_ensures(
                f,
                (&s[i].0, &s[i].1),
                false,
            ) by {
                if self@.contains(s[i]) {
                    let a = choose|a: int| 0 <= a < self@.len() && self@[a] == s[i];
                    assert(self@[a].0 == s[i].0);
                    assert(has_key(self@, s[i].0));
                }
            }
        }
    }

    /// The retain loop for a predicate on keys alone; the set's retain
    /// forwards here.
    pub(crate) fn retain_keys<F: Fn(&K) -> bool>(&mut self, f: F)
        requires
            old(self).wf(),
            forall|k: K| #[trigger] call_requires(f, (&k,)),
        ensures
            final(self).wf(),
            forall|i: int|
                0 <= i < final(self)@.len() ==> call_ensures(
                    f,
                    (&(#[trigger] final(self)@[i]).0,),
                    true,
                ),
            forall|k2: K| #[trigger]
                has_key(final(self)@, k2) ==> has_key(old(self)@, k2) && value_of(
                    final(self)@,
                    k2,
                ) == value_of(old(self)@, k2),
            forall|i: int|
                0 <= i < old(self)@.len() && !has_key(final(self)@, (#[trigger] old(self)@[i]).0)
                    ==> call_ensures(f, (&old(self)@[i].0,), false),
    {
        let ghost s = self@;
        let mut rest: Vec<(K, V)> = Vec::new();
        core::mem::swap(&mut self.buf, &mut rest);
        proof {
            assert(s.subrange(0, s.len() as int) =~= s);
        }
        let mut kept: Vec<(K, V)> = Vec::new();
        while rest.len() > 0
            invariant
                entries_sorted(s),
                rest@.len() <= s.len(),
                rest@ == s.subrange(s.len() - rest@.len(), s.len() as int),
                entries_sorted(kept@),
                forall|a: int|
                    0 <= a < kept@.len() ==> exists|j: int|
                        0 <= j < s.len() - rest@.len() && #[trigger] kept@[a] == s[j],
                forall|a: int|
                    0 <= a < kept@.len() ==> call_ensures(
                        f,
                        (&(#[trigger] kept@[a]).0,),
                        true,
                    ),
                forall|j: int|
                    0 <= j < s.len() - rest@.len() ==> kept@.contains(#[trigger] s[j])
                        || call_ensures(f, (&s[j].0,), false),
                forall|k2: K| #[trigger] call_requires(f, (&k2,)),
            decreases rest@.len(),
        {
            let ghost rp = rest@;
            let ghost kp = kept@;
            let ghost done = s.len() - rp.len();
            let e = rest.remove(0);
            proof {
                assert(e == s[done]);
                assert(rest@ =~= s.subrange(s.len() - rest@.len(), s.len() as int));
            }
            let keep_it = f(&e.0);
            if keep_it {
                kept.push(e);
                proof {
                    assert forall|a: int, b: int| 0 <= a < b < kept@.len() implies lt(
                        kept@[a].0,
                        kept@[b].0,
                    ) by {
                        if b == kept@.len() - 1 {
                            assert(kept@[a] == kp[a]);
                            let j = choose|j: int| 0 <= j < done && kp[a] == s[j];
                            assert(lt(s[j].0, s[done].0));
                        }
                    }
                    assert forall|j: int|
                        0 <= j < s.len() - rest@.len() implies kept@.contains(#[trigger] s[j])
                            || call_ensures(f, (&s[j].0,), false) by {
                        if j < done {
                            if kp.contains(s[j]) {
                                let a = choose|a: int| 0 <= a < kp.len() && kp[a] == s[j];
                                assert(kept@[a] == s[j]);
                            }
                        } else {
                            assert(kept@[kept@.len() - 1] == s[done]);
                        }
                    }
                }
            } else {
                proof {
                    assert forall|j: int|
                        0 <= j < s.len() - rest@.len() implies kept@.contains(#[trigger] s[j])
                            || call_ensures(f, (&s[j].0,), false) by {}
                }
            }
        }
        self.buf = kept;
        proof {
            assert(rest@ =~= Seq::<(K, V)>::empty());
            assert forall|k2: K| #[trigger] has_key(self@, k2) implies has_key(s, k2) && value_of(
                self@,
                k2,
            ) == value_of(s, k2) by {
                lemma_key_index(self@, k2);
                let a = key_index(self@, k2);
                lemma_entry_found(self@, a);
                let j = choose|j: int| 0 <= j < s.len() && self@[a] == s[j];
                lemma_entry_found(s, j);
            }
            assert forall|i: int|
                0 <= i < s.len() && !has_key(self@, (#[trigger] s[i]).0) implies call_ensures(
                f,
                (&s[i].0,),
                false,
            ) by {
                if self@.contains(s[i]) {
                    let a = choose|a: int| 0 <= a < self@.len() && self@[a] == s[i];
                    assert(self@[a].0 == s[i].0);
                    assert(has_key(self@, s[i].0));
                }
            }
        }
    }

    /// Borrows the entry buffer.
    pub(crate) fn entries_ref(&self) -> (r: &Vec<(K, V)>)
        ensures
            r@ == self@,
    {
        &self.buf
    }

    /// Moves the entry buffer out, leaving the map empty.
    pub(crate) fn take_entries(&mut self) -> (r: Vec<(K, V)>)
        ensures
            r@ == old(self)@,
            final(self)@ == Seq::<(K, V)>::empty(),
            final(self).wf(),
    {
        let mut buf: Vec<(K, V)> = Vec::new();
        core::mem::swap(&mut self.buf, &mut buf);
        buf
    }

    /// Consumes the map into its entry buffer.
    pub(crate) fn into_entries(self) -> (r: Vec<(K, V)>)
        ensures
            r@ == self@,
    {
        self.buf
    }
}

impl<K: TotalOrder, V> Default for IdentityMap<K, V> {
    /// Constructs a new, empty identity map.
    fn default() -> (r: Self)
        ensures
            r@ == Seq::<(K, V)>::empty(),
            r.wf(),
    {
        Self::new()
    }
}

} // verus!
