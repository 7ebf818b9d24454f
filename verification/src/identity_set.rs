//! The ordered identity set.

use vstd::prelude::*;

use crate::identity_map::{
    entries_sorted, has_key, inserted, inserted_all, lemma_entry_found, lemma_key_index, removed,
    IdentityMap,
};
use crate::iter as map_iter;
use crate::order::{lemma_lt_transitive, lt, TotalOrder};

verus! {

/// Whether a sequence of keys is sorted in strictly ascending order.
pub open spec fn keys_sorted<T: TotalOrder>(s: Seq<T>) -> bool {
    forall|i: int, j: int| #![trigger s[i], s[j]] 0 <= i < j < s.len() ==> lt(s[i], s[j])
}

/// An ordered identity set.
///
/// The set records keys, each unique, compared directly through their
/// [`TotalOrder`] rather than hashed. It is a thin adapter over an
/// [`IdentityMap`] whose value type carries no data, so its abstract value
/// (the view `@`) is the map's entry sequence, each entry a key paired with
/// the unit value.
#[derive(Clone, Debug, PartialEq, Eq)]
pub struct IdentitySet<T: TotalOrder> {
    map: IdentityMap<T, ()>,
}

impl<T: TotalOrder> View for IdentitySet<T> {
    type V = Seq<(T, ())>;

    closed spec fn view(&self) -> Seq<(T, ())> {
        self.map@
    }
}

impl<T: TotalOrder> IdentitySet<T> {
    /// The set's invariant: keys sorted, strictly ascending.
    pub open spec fn wf(&self) -> bool {
        entries_sorted(self@)
    }

    /// The keys held by the set, in ascending order.
    pub open spec fn keys(&self) -> Seq<T> {
        self@.map_values(|e: (T, ())| e.0)
    }

    /// Constructs a new, empty identity set.
    pub fn new() -> (r: Self)
        ensures
            r@ == Seq::<(T, ())>::empty(),
            r.wf(),
    {
        IdentitySet { map: IdentityMap::new() }
    }

    /// Preallocates a new identity set for at least `cap` keys.
    ///
    /// # Panics
    ///
    /// The process is aborted if the buffer cannot be allocated.
    pub fn with_capacity(cap: usize) -> (r: Self)
        ensures
            r@ == Seq::<(T, ())>::empty(),
            r.wf(),
    {
        IdentitySet { map: IdentityMap::with_capacity(cap) }
    }

    /// Retrieves the current length of the set.
    pub fn len(&self) -> (r: usize)
        ensures
            r == self@.len(),
    {
        self.map.len()
    }

    /// Tests if the set is empty.
    pub fn is_empty(&self) -> (r: bool)
        ensures
            r == (self@.len() == 0),
    {
        self.map.is_empty()
    }

    /// Clears the set, dropping all keys.
    pub fn clear(&mut self)
        ensures
            final(self)@ == Seq::<(T, ())>::empty(),
            final(self).wf(),
    {
        self.map.clear();
    }

    /// Reserves room for at least `additional` further keys.
    ///
    /// # Panics
    ///
    /// The process is aborted if the buffer cannot be grown.
    pub fn reserve(&mut self, additional: usize)
        ensures
            final(self)@ == old(self)@,
    {
        self.map.reserve(additional);
    }

    /// Retrieves the total capacity of the set; never below the length.
    pub fn capacity(&self) -> (r: usize)
        ensures
            r >= self@.len(),
    {
        self.map.capacity()
    }

    /// Shrinks the set's capacity towards `min_capacity`, keeping the keys
    /// as they are.
    pub fn shrink_to(&mut self, min_capacity: usize)
        ensures
            final(self)@ == old(self)@,
    {
        self.map.shrink_to(min_capacity)
    }

    /// Shrinks the set's capacity towards its length, keeping the keys as
    /// they are.
    pub fn shrink_to_fit(&mut self)
        ensures
            final(self)@ == old(self)@,
    {
        self.map.shrink_to_fit()
    }

    /// Inserts a new key into the set, reporting whether it was already
    /// present. A present key leaves the set unchanged up to the stored
    /// key's identity.
    ///
    /// # Panics
    ///
    /// The process is aborted if the buffer must grow and cannot.
    pub fn insert(&mut self, key: T) -> (r: bool)
        requires
            old(self).wf(),
        ensures
            final(self).wf(),
            final(self)@ == inserted(old(self)@, key, ()),
            r == has_key(old(self)@, key),
    {
        match self.map.insert(key, ()) {
            Some(_) => true,
            None => false,
        }
    }

    /// Takes a specific key out of the set, returning it.
    pub fn take(&mut self, key: &T) -> (r: Option<T>)
        requires
            old(self).wf(),
        ensures
            final(self).wf(),
            final(self)@ == removed(old(self)@, *key),
            r == if has_key(old(self)@, *key) {
                Some(*key)
            } else {
                None::<T>
            },
    {
        proof {
            if has_key(old(self)@, *key) {
                lemma_key_index(old(self)@, *key);
            }
        }
        match self.map.remove_entry(key) {
            Some((k, _)) => Some(k),
            None => None,
        }
    }

    /// Removes a specific key from the set, reporting whether it was
    /// present.
    pub fn remove(&mut self, key: &T) -> (r: bool)
        requires
            old(self).wf(),
        ensures
            final(self).wf(),
            final(self)@ == removed(old(self)@, *key),
            r == has_key(old(self)@, *key),
    {
        match self.take(key) {
            Some(_) => true,
            None => false,
        }
    }

    /// Borrows the stored key equal to the given one, if present.
    pub fn get(&self, key: &T) -> (r: Option<&T>)
        requires
            self.wf(),
        ensures
            match r {
                Some(k) => has_key(self@, *key) && *k == *key,
                None => !has_key(self@, *key),
            },
    {
        proof {
            if has_key(self@, *key) {
                lemma_key_index(self@, *key);
            }
        }
        match self.map.get_key_value(key) {
            Some((k, _)) => Some(k),
            None => None,
        }
    }

    /// Checks if the set contains the specified key.
    pub fn contains(&self, key: &T) -> (r: bool)
        requires
            self.wf(),
        ensures
            r == has_key(self@, *key),
    {
        self.map.contains_key(key)
    }

    /// Retains only the keys a predicate approves.
    ///
    /// Keys are tested in ascending order. Every surviving key was approved
    /// and keeps its place relative to the other survivors; every discarded
    /// key was rejected.
    pub fn retain<F: Fn(&T) -> bool>(&mut self, f: F)
        requires
            old(self).wf(),
            forall|k: T| #[trigger] call_requires(f, (&k,)),
        ensures
            final(self).wf(),
            forall|i: int|
                0 <= i < final(self)@.len() ==> call_ensures(
                    f,
                    (&(#[trigger] final(self)@[i]).0,),
                    true,
                ),
            forall|k2: T| #[trigger] has_key(final(self)@, k2) ==> has_key(old(self)@, k2),
            forall|i: int|
                0 <= i < old(self)@.len() && !has_key(final(self)@, (#[trigger] old(self)@[i]).0)
                    ==> call_ensures(f, (&old(self)@[i].0,), false),
    {
        self.map.retain_keys(f);
    }

    /// Builds a set from a list of keys, storing them front first;
    /// duplicates collapse.
    ///
    /// # Panics
    ///
    /// The process is aborted if the buffer cannot be allocated.
    pub fn from_keys(list: Vec<T>) -> (r: Self)
        ensures
            r.wf(),
            r@ == inserted_all(
                Seq::<(T, ())>::empty(),
                list@.map_values(|k: T| (k, ())),
            ),
    {
        let ghost l0 = list@;
        let mut list = list;
        let mut pairs: Vec<(T, ())> = Vec::new();
        while list.len() > 0
            invariant
                pairs@ + list@.map_values(|k: T| (k, ())) == l0.map_values(|k: T| (k, ())),
            decreases list@.len(),
        {
            let ghost lp = list@;
            let ghost pp = pairs@;
            let k = list.remove(0);
            pairs.push((k, ()));
            proof {
                let f = |k: T| (k, ());
                assert(lp.map_values(f) =~= seq![(lp[0], ())] + lp.subrange(
                    1,
                    lp.len() as int,
                ).map_values(f));
                assert(lp.remove(0) =~= lp.subrange(1, lp.len() as int));
                assert(pairs@ + list@.map_values(f) =~= pp + lp.map_values(f));
            }
        }
        proof {
            assert(pairs@ + list@.map_values(|k: T| (k, ())) =~= pairs@);
        }
        IdentitySet { map: IdentityMap::from_entries(pairs) }
    }

    /// Gets an iterator of the contained keys, in ascending order.
    pub fn iter(&self) -> (r: Iter<'_, T>)
        ensures
            r.wf(),
            r.remaining() == self@,
    {
        Iter { base: self.map.keys() }
    }

    /// Converts the set into an owning iterator of its keys.
    pub fn into_iter(self) -> (r: IntoIter<T>)
        ensures
            r.remaining() == self@,
    {
        IntoIter { base: self.map.into_keys() }
    }

    /// Drains the set: every key is detached at once, leaving the set
    /// empty, and the returned iterator yields the detached keys.
    pub fn drain(&mut self) -> (r: Drain<T>)
        ensures
            final(self)@ == Seq::<(T, ())>::empty(),
            final(self).wf(),
            r.remaining() == old(self)@,
    {
        let buf = self.map.drain();
        Drain { base: buf }
    }

    /// Borrows the key at a buffer position; positions follow key order.
    pub fn get_key(&self, index: usize) -> (r: &T)
        requires
            index < self@.len(),
        ensures
            *r == self@[index as int].0,
    {
        let entry = self.map.get_entry(index);
        entry.0
    }
}

/// A sequence contains an element exactly when its front carries it or its
/// tail contains it.
proof fn lemma_contains_head_tail<T>(s: Seq<T>)
    requires
        s.len() > 0,
    ensures
        forall|k: T| #[trigger]
            s.contains(k) <==> (k == s[0] || s.subrange(1, s.len() as int).contains(k)),
{
    let tail = s.subrange(1, s.len() as int);
    assert forall|k: T| #[trigger] s.contains(k) implies (k == s[0] || tail.contains(k)) by {
        let i = choose|i: int| 0 <= i < s.len() && s[i] == k;
        if i > 0 {
            assert(tail[i - 1] == k);
        }
    }
    assert forall|k: T| k == s[0] || tail.contains(k) implies s.contains(k) by {
        if k == s[0] {
            assert(s[0] == k);
        } else {
            let i = choose|i: int| 0 <= i < tail.len() && tail[i] == k;
            assert(s[i + 1] == k);
        }
    }
}

/// A sequence extended at the back contains an element exactly when the old
/// sequence contains it or it is the new element.
proof fn lemma_contains_push<T>(s: Seq<T>, x: T)
    ensures
        forall|k: T| #[trigger] s.push(x).contains(k) <==> (s.contains(k) || k == x),
{
    let t = s.push(x);
    assert forall|k: T| #[trigger] t.contains(k) implies (s.contains(k) || k == x) by {
        let i = choose|i: int| 0 <= i < t.len() && t[i] == k;
        if i < s.len() {
            assert(s[i] == k);
        }
    }
    assert forall|k: T| s.contains(k) || k == x implies t.contains(k) by {
        if s.contains(k) {
            let i = choose|i: int| 0 <= i < s.len() && s[i] == k;
            assert(t[i] == k);
        } else {
            assert(t[s.len() as int] == k);
        }
    }
}

/// The key sequence of a sorted entry sequence is sorted, and carries
/// exactly the keys the entries do.
pub proof fn lemma_keys_of_entries<T: TotalOrder>(s: Seq<(T, ())>)
    requires
        entries_sorted(s),
    ensures
        keys_sorted(s.map_values(|e: (T, ())| e.0)),
        forall|k: T| s.map_values(|e: (T, ())| e.0).contains(k) <==> #[trigger] has_key(s, k),
{
    let ks = s.map_values(|e: (T, ())| e.0);
    assert forall|k: T| #[trigger] ks.contains(k) implies has_key(s, k) by {
        let i = choose|i: int| 0 <= i < ks.len() && ks[i] == k;
        assert(s[i].0 == k);
    }
    assert forall|k: T| has_key(s, k) implies ks.contains(k) by {
        let i = choose|i: int| 0 <= i < s.len() && s[i].0 == k;
        assert(ks[i] == k);
    }
}

/// Merges two sorted key sequences into one sorted sequence holding the
/// keys of both; a key present in both enters once.
fn merge_keys<T: TotalOrder>(a: Vec<T>, b: Vec<T>) -> (r: Vec<T>)
    requires
        keys_sorted(a@),
        keys_sorted(b@),
    ensures
        keys_sorted(r@),
        forall|k: T| #[trigger] r@.contains(k) <==> (a@.contains(k) || b@.contains(k)),
{
    let ghost a0 = a@;
    let ghost b0 = b@;
    let mut a = a;
    let mut b = b;
    let mut out: Vec<T> = Vec::new();
    while a.len() > 0 || b.len() > 0
        invariant
            keys_sorted(a@),
            keys_sorted(b@),
            keys_sorted(out@),
            forall|k: T|
                (#[trigger] a0.contains(k) || b0.contains(k)) <==> (out@.contains(k)
                    || a@.contains(k) || b@.contains(k)),
            forall|x: int, p: int|
                0 <= x < out@.len() && 0 <= p < a@.len() ==> lt(
                    #[trigger] out@[x],
                    #[trigger] a@[p],
                ),
            forall|x: int, p: int|
                0 <= x < out@.len() && 0 <= p < b@.len() ==> lt(
                    #[trigger] out@[x],
                    #[trigger] b@[p],
                ),
        decreases a@.len() + b@.len(),
    {
        let ghost ap = a@;
        let ghost bp = b@;
        let ghost op = out@;
        if b.len() == 0 {
            let k = a.remove(0);
            out.push(k);
            proof {
                assert(a@ =~= ap.subrange(1, ap.len() as int));
                lemma_contains_head_tail(ap);
                lemma_contains_push(op, k);
            }
        } else if a.len() == 0 {
            let k = b.remove(0);
            out.push(k);
            proof {
                assert(b@ =~= bp.subrange(1, bp.len() as int));
                lemma_contains_head_tail(bp);
                lemma_contains_push(op, k);
                assert forall|p: int| 0 <= p < b@.len() implies lt(k, b@[p]) by {
                    assert(b@[p] == bp[p + 1]);
                }
            }
        } else {
            match a[0].compare(&b[0]) {
                core::cmp::Ordering::Less => {
                    let k = a.remove(0);
                    out.push(k);
                    proof {
                        assert(a@ =~= ap.subrange(1, ap.len() as int));
                        lemma_contains_head_tail(ap);
                        lemma_contains_push(op, k);
                        assert forall|p: int| 0 <= p < b@.len() implies lt(k, b@[p]) by {
                            if p > 0 {
                                lemma_lt_transitive(k, b@[0], b@[p]);
                            }
                        }
                    }
                }
                core::cmp::Ordering::Greater => {
                    let k = b.remove(0);
                    out.push(k);
                    proof {
                        assert(b@ =~= bp.subrange(1, bp.len() as int));
                        lemma_contains_head_tail(bp);
                        lemma_contains_push(op, k);
                        assert forall|p: int| 0 <= p < a@.len() implies lt(k, a@[p]) by {
                            if p > 0 {
                                lemma_lt_transitive(k, a@[0], a@[p]);
                            }
                        }
                    }
                }
                core::cmp::Ordering::Equal => {
                    let k = a.remove(0);
                    let twin = b.remove(0);
                    out.push(k);
                    proof {
                        assert(twin == k);
                        assert(a@ =~= ap.subrange(1, ap.len() as int));
                        assert(b@ =~= bp.subrange(1, bp.len() as int));
                        lemma_contains_head_tail(ap);
                        lemma_contains_head_tail(bp);
                        lemma_contains_push(op, k);
                        assert forall|p: int| 0 <= p < b@.len() implies lt(k, b@[p]) by {
                            assert(b@[p] == bp[p + 1]);
                        }
                    }
                }
            }
        }
        proof {
            assert forall|x: int, y: int| 0 <= x < y < out@.len() implies lt(
                out@[x],
                out@[y],
            ) by {
                if y == out@.len() - 1 {
                    assert(out@[x] == op[x]);
                }
            }
        }
    }
    out
}

impl<T: TotalOrder> IdentitySet<T> {
    /// Copies the set's keys into a buffer, in ascending order.
    fn copy_keys(&self) -> (r: Vec<T>)
        requires
            self.wf(),
        ensures
            r@ == self.keys(),
    {
        let ghost s = self@;
        let mut out: Vec<T> = Vec::new();
        let n = self.map.len();
        let mut i: usize = 0;
        while i < n
            invariant
                s == self@,
                n == s.len(),
                0 <= i <= n,
                out@ == s.subrange(0, i as int).map_values(|e: (T, ())| e.0),
            decreases n - i,
        {
            let entry = self.map.get_entry(i);
            out.push(entry.0.duplicate());
            proof {
                assert(out@ =~= s.subrange(0, i + 1).map_values(|e: (T, ())| e.0));
            }
            i = i + 1;
        }
        proof {
            assert(s.subrange(0, n as int) =~= s);
        }
        out
    }

    /// Copies into a buffer, in ascending order, the keys of this set whose
    /// presence in `other` equals `keep`.
    fn filter_keys(&self, other: &Self, keep: bool) -> (r: Vec<T>)
        requires
            self.wf(),
            other.wf(),
        ensures
            keys_sorted(r@),
            forall|k: T| #[trigger]
                r@.contains(k) <==> (has_key(self@, k) && has_key(other@, k) == keep),
    {
        let ghost s = self@;
        let mut out: Vec<T> = Vec::new();
        let n = self.map.len();
        let mut i: usize = 0;
        while i < n
            invariant
                self.wf(),
                other.wf(),
                s == self@,
                n == s.len(),
                0 <= i <= n,
                keys_sorted(out@),
                forall|a: int|
                    0 <= a < out@.len() ==> exists|j: int|
                        0 <= j < i && #[trigger] out@[a] == s[j].0,
                forall|k: T| #[trigger]
                    out@.contains(k) ==> (has_key(s, k) && has_key(other@, k) == keep),
                forall|j: int|
                    0 <= j < i && has_key(other@, #[trigger] s[j].0) == keep
                        ==> out@.contains(s[j].0),
            decreases n - i,
        {
            let entry = self.map.get_entry(i);
            let hit = other.contains(entry.0);
            if hit == keep {
                let ghost op = out@;
                out.push(entry.0.duplicate());
                proof {
                    lemma_contains_push(op, s[i as int].0);
                    assert forall|x: int, y: int| 0 <= x < y < out@.len() implies lt(
                        out@[x],
                        out@[y],
                    ) by {
                        if y == out@.len() - 1 {
                            assert(out@[x] == op[x]);
                            let j = choose|j: int| 0 <= j < i && op[x] == s[j].0;
                            assert(lt(s[j].0, s[i as int].0));
                        }
                    }
                    assert forall|k: T| #[trigger] out@.contains(k) implies (has_key(s, k)
                        && has_key(other@, k) == keep) by {
                        if k == s[i as int].0 {
                            lemma_entry_found(s, i as int);
                        }
                    }
                }
            }
            i = i + 1;
        }
        proof {
            assert forall|k: T| has_key(s, k) && has_key(other@, k) == keep implies
                out@.contains(k) by {
                lemma_key_index(s, k);
            }
        }
        out
    }

    /// Gets an iterator denoting the intersection of two sets: the keys
    /// present in both, in ascending order.
    pub fn intersection(&self, other: &Self) -> (r: Intersection<T>)
        requires
            self.wf(),
            other.wf(),
        ensures
            keys_sorted(r.remaining()),
            forall|k: T| #[trigger]
                r.remaining().contains(k) <==> (has_key(self@, k) && has_key(other@, k)),
    {
        Intersection { keys: self.filter_keys(other, true) }
    }

    /// Gets an iterator denoting the difference of two sets: the keys of
    /// this set not present in `other`, in ascending order.
    pub fn difference(&self, other: &Self) -> (r: Difference<T>)
        requires
            self.wf(),
            other.wf(),
        ensures
            keys_sorted(r.remaining()),
            forall|k: T| #[trigger]
                r.remaining().contains(k) <==> (has_key(self@, k) && !has_key(other@, k)),
    {
        Difference { keys: self.filter_keys(other, false) }
    }

    /// Gets an iterator denoting the union of two sets: the keys present in
    /// either, in ascending order, each once.
    pub fn union(&self, other: &Self) -> (r: Union<T>)
        requires
            self.wf(),
            other.wf(),
        ensures
            keys_sorted(r.remaining()),
            forall|k: T| #[trigger]
                r.remaining().contains(k) <==> (has_key(self@, k) || has_key(other@, k)),
    {
        proof {
            lemma_keys_of_entries(self@);
            lemma_keys_of_entries(other@);
        }
        Union { keys: merge_keys(self.copy_keys(), other.copy_keys()) }
    }

    /// Gets an iterator denoting the symmetric difference of two sets: the
    /// keys present in exactly one, in ascending order.
    pub fn symmetric_difference(&self, other: &Self) -> (r: SymmetricDifference<T>)
        requires
            self.wf(),
            other.wf(),
        ensures
            keys_sorted(r.remaining()),
            forall|k: T| #[trigger]
                r.remaining().contains(k) <==> (has_key(self@, k) != has_key(other@, k)),
    {
        let left = self.filter_keys(other, false);
        let right = other.filter_keys(self, false);
        SymmetricDifference { keys: merge_keys(left, right) }
    }

    /// Checks whether every key of this set is also in `other`.
    pub fn is_subset(&self, other: &Self) -> (r: bool)
        requires
            self.wf(),
            other.wf(),
        ensures
            r == forall|k: T| #[trigger] has_key(self@, k) ==> has_key(other@, k),
    {
        let ghost s = self@;
        let n = self.map.len();
        let mut i: usize = 0;
        while i < n
            invariant
                self.wf(),
                other.wf(),
                s == self@,
                n == s.len(),
                0 <= i <= n,
                forall|j: int| 0 <= j < i ==> has_key(other@, #[trigger] s[j].0),
            decreases n - i,
        {
            let entry = self.map.get_entry(i);
            if !other.contains(entry.0) {
                proof {
                    lemma_entry_found(s, i as int);
                }
                return false;
            }
            i = i + 1;
        }
        proof {
            assert forall|k: T| #[trigger] has_key(s, k) implies has_key(other@, k) by {
                lemma_key_index(s, k);
            }
        }
        true
    }

    /// Checks whether every key of `other` is also in this set.
    pub fn is_superset(&self, other: &Self) -> (r: bool)
        requires
            self.wf(),
            other.wf(),
        ensures
            r == forall|k: T| #[trigger] has_key(other@, k) ==> has_key(self@, k),
    {
        other.is_subset(self)
    }

    /// Checks whether the two sets share no key.
    pub fn is_disjoint(&self, other: &Self) -> (r: bool)
        requires
            self.wf(),
            other.wf(),
        ensures
            r == forall|k: T| !(#[trigger] has_key(self@, k) && has_key(other@, k)),
    {
        let ghost s = self@;
        let n = self.map.len();
        let mut i: usize = 0;
        while i < n
            invariant
                self.wf(),
                other.wf(),
                s == self@,
                n == s.len(),
                0 <= i <= n,
                forall|j: int| 0 <= j < i ==> !has_key(other@, #[trigger] s[j].0),
            decreases n - i,
        {
            let entry = self.map.get_entry(i);
            if other.contains(entry.0) {
                proof {
                    lemma_entry_found(s, i as int);
                }
                return false;
            }
            i = i + 1;
        }
        proof {
            assert forall|k: T| #[trigger] has_key(s, k) implies !has_key(other@, k) by {
                lemma_key_index(s, k);
            }
        }
        true
    }
}

/// Iterator denoting the union of two identity sets. The keys are computed
/// up front by a sorted merge and yielded in ascending order.
pub struct Union<T> {
    keys: Vec<T>,
}

impl<T> Union<T> {
    /// The keys not yet yielded, in order.
    pub closed spec fn remaining(&self) -> Seq<T> {
        self.keys@
    }

    /// Yields the front key of the remaining run, if any, moving it out.
    pub fn next(&mut self) -> (r: Option<T>)
        ensures
            match r {
                Some(k) => {
                    &&& old(self).remaining().len() > 0
                    &&& k == old(self).remaining()[0]
                    &&& final(self).remaining() == old(self).remaining().subrange(
                        1,
                        old(self).remaining().len() as int,
                    )
                },
                None => old(self).remaining().len() == 0 && final(self).remaining() == old(
                    self,
                ).remaining(),
            },
    {
        if self.keys.len() > 0 {
            let k = self.keys.remove(0);
            proof {
                assert(self.keys@ =~= old(self).keys@.subrange(
                    1,
                    old(self).keys@.len() as int,
                ));
            }
            Some(k)
        } else {
            None
        }
    }

    /// The exact number of keys left to yield.
    pub fn len(&self) -> (r: usize)
        ensures
            r == self.remaining().len(),
    {
        self.keys.len()
    }
}

/// Iterator denoting the intersection of two identity sets. The keys are
/// computed up front and yielded in ascending order.
pub struct Intersection<T> {
    keys: Vec<T>,
}

impl<T> Intersection<T> {
    /// The keys not yet yielded, in order.
    pub closed spec fn remaining(&self) -> Seq<T> {
        self.keys@
    }

    /// Yields the front key of the remaining run, if any, moving it out.
    pub fn next(&mut self) -> (r: Option<T>)
        ensures
            match r {
                Some(k) => {
                    &&& old(self).remaining().len() > 0
                    &&& k == old(self).remaining()[0]
                    &&& final(self).remaining() == old(self).remaining().subrange(
                        1,
                        old(self).remaining().len() as int,
                    )
                },
                None => old(self).remaining().len() == 0 && final(self).remaining() == old(
                    self,
                ).remaining(),
            },
    {
        if self.keys.len() > 0 {
            let k = self.keys.remove(0);
            proof {
                assert(self.keys@ =~= old(self).keys@.subrange(
                    1,
                    old(self).keys@.len() as int,
                ));
            }
            Some(k)
        } else {
            None
        }
    }

    /// The exact number of keys left to yield.
    pub fn len(&self) -> (r: usize)
        ensures
            r == self.remaining().len(),
    {
        self.keys.len()
    }
}

/// Iterator denoting the difference of two identity sets. The keys are
/// computed up front and yielded in ascending order.
pub struct Difference<T> {
    keys: Vec<T>,
}

impl<T> Difference<T> {
    /// The keys not yet yielded, in order.
    pub closed spec fn remaining(&self) -> Seq<T> {
        self.keys@
    }

    /// Yields the front key of the remaining run, if any, moving it out.
    pub fn next(&mut self) -> (r: Option<T>)
        ensures
            match r {
                Some(k) => {
                    &&& old(self).remaining().len() > 0
                    &&& k == old(self).remaining()[0]
                    &&& final(self).remaining() == old(self).remaining().subrange(
                        1,
                        old(self).remaining().len() as int,
                    )
                },
                None => old(self).remaining().len() == 0 && final(self).remaining() == old(
                    self,
                ).remaining(),
            },
    {
        if self.keys.len() > 0 {
            let k = self.keys.remove(0);
            proof {
                assert(self.keys@ =~= old(self).keys@.subrange(
                    1,
                    old(self).keys@.len() as int,
                ));
            }
            Some(k)
        } else {
            None
        }
    }

    /// The exact number of keys left to yield.
    pub fn len(&self) -> (r: usize)
        ensures
            r == self.remaining().len(),
    {
        self.keys.len()
    }
}

/// Iterator denoting the symmetric difference of two identity sets. The
/// keys are computed up front and yielded in ascending order.
pub struct SymmetricDifference<T> {
    keys: Vec<T>,
}

impl<T> SymmetricDifference<T> {
    /// The keys not yet yielded, in order.
    pub closed spec fn remaining(&self) -> Seq<T> {
        self.keys@
    }

    /// Yields the front key of the remaining run, if any, moving it out.
    pub fn next(&mut self) -> (r: Option<T>)
        ensures
            match r {
                Some(k) => {
                    &&& old(self).remaining().len() > 0
                    &&& k == old(self).remaining()[0]
                    &&& final(self).remaining() == old(self).remaining().subrange(
                        1,
                        old(self).remaining().len() as int,
                    )
                },
                None => old(self).remaining().len() == 0 && final(self).remaining() == old(
                    self,
                ).remaining(),
            },
    {
        if self.keys.len() > 0 {
            let k = self.keys.remove(0);
            proof {
                assert(self.keys@ =~= old(self).keys@.subrange(
                    1,
                    old(self).keys@.len() as int,
                ));
            }
            Some(k)
        } else {
            None
        }
    }

    /// The exact number of keys left to yield.
    pub fn len(&self) -> (r: usize)
        ensures
            r == self.remaining().len(),
    {
        self.keys.len()
    }
}

/// Borrowing identity set iterator, yielding keys in ascending order.
pub struct Iter<'a, T> {
    base: map_iter::Keys<'a, T, ()>,
}

impl<'a, T> Iter<'a, T> {
    /// The entries whose keys are not yet yielded, in order.
    pub closed spec fn remaining(&self) -> Seq<(T, ())> {
        self.base.remaining()
    }

    /// The iterator's invariant.
    pub closed spec fn wf(&self) -> bool {
        self.base.wf()
    }

    /// Yields the front key of the remaining run, if any.
    pub fn next(&mut self) -> (r: Option<&'a T>)
        requires
            old(self).wf(),
        ensures
            final(self).wf(),
            match r {
                Some(k) => {
                    &&& old(self).remaining().len() > 0
                    &&& *k == old(self).remaining()[0].0
                    &&& final(self).remaining() == old(self).remaining().subrange(
                        1,
                        old(self).remaining().len() as int,
                    )
                },
                None => old(self).remaining().len() == 0 && *final(self) == *old(self),
            },
    {
        self.base.next()
    }

    /// Yields the back key of the remaining run, if any.
    pub fn next_back(&mut self) -> (r: Option<&'a T>)
        requires
            old(self).wf(),
        ensures
            final(self).wf(),
            match r {
                Some(k) => {
                    &&& old(self).remaining().len() > 0
                    &&& *k == old(self).remaining().last().0
                    &&& final(self).remaining() == old(self).remaining().drop_last()
                },
                None => old(self).remaining().len() == 0 && *final(self) == *old(self),
            },
    {
        self.base.next_back()
    }

    /// The exact number of keys left to yield.
    pub fn len(&self) -> (r: usize)
        requires
            self.wf(),
        ensures
            r == self.remaining().len(),
    {
        self.base.len()
    }
}

/// Owning identity set iterator, yielding keys by value in ascending order.
pub struct IntoIter<T> {
    base: map_iter::IntoKeys<T, ()>,
}

impl<T> IntoIter<T> {
    /// The entries whose keys are not yet yielded, in order.
    pub closed spec fn remaining(&self) -> Seq<(T, ())> {
        self.base.remaining()
    }

    /// Yields the front key of the remaining run, if any, moving it out.
    pub fn next(&mut self) -> (r: Option<T>)
        ensures
            match r {
                Some(k) => {
                    &&& old(self).remaining().len() > 0
                    &&& k == old(self).remaining()[0].0
                    &&& final(self).remaining() == old(self).remaining().subrange(
                        1,
                        old(self).remaining().len() as int,
                    )
                },
                None => old(self).remaining().len() == 0 && final(self).remaining() == old(
                    self,
                ).remaining(),
            },
    {
        self.base.next()
    }

    /// Yields the back key of the remaining run, if any, moving it out.
    pub fn next_back(&mut self) -> (r: Option<T>)
        ensures
            match r {
                Some(k) => {
                    &&& old(self).remaining().len() > 0
                    &&& k == old(self).remaining().last().0
                    &&& final(self).remaining() == old(self).remaining().drop_last()
                },
                None => old(self).remaining().len() == 0 && final(self).remaining() == old(
                    self,
                ).remaining(),
            },
    {
        self.base.next_back()
    }

    /// The exact number of keys left to yield.
    pub fn len(&self) -> (r: usize)
        ensures
            r == self.remaining().len(),
    {
        self.base.len()
    }
}

/// Draining identity set iterator.
///
/// Constructing it detaches every key from the source set at once -- the set
/// is empty as soon as the drain exists -- and the detached keys are then
/// yielded by value, in ascending order. Keys never yielded are dropped with
/// the drain.
pub struct Drain<T> {
    base: map_iter::Drain<T, ()>,
}

impl<T> Drain<T> {
    /// The entries whose keys are not yet yielded, in order.
    pub closed spec fn remaining(&self) -> Seq<(T, ())> {
        self.base.remaining()
    }

    /// Yields the front key of the remaining run, if any, moving it out.
    pub fn next(&mut self) -> (r: Option<T>)
        ensures
            match r {
                Some(k) => {
                    &&& old(self).remaining().len() > 0
                    &&& k == old(self).remaining()[0].0
                    &&& final(self).remaining() == old(self).remaining().subrange(
                        1,
                        old(self).remaining().len() as int,
                    )
                },
                None => old(self).remaining().len() == 0 && final(self).remaining() == old(
                    self,
                ).remaining(),
            },
    {
        match self.base.next() {
            Some((k, _)) => Some(k),
            None => None,
        }
    }

    /// Yields the back key of the remaining run, if any, moving it out.
    pub fn next_back(&mut self) -> (r: Option<T>)
        ensures
            match r {
                Some(k) => {
                    &&& old(self).remaining().len() > 0
                    &&& k == old(self).remaining().last().0
                    &&& final(self).remaining() == old(self).remaining().drop_last()
                },
                None => old(self).remaining().len() == 0 && final(self).remaining() == old(
                    self,
                ).remaining(),
            },
    {
        match self.base.next_back() {
            Some((k, _)) => Some(k),
            None => None,
        }
    }

    /// The exact number of keys left to yield.
    pub fn len(&self) -> (r: usize)
        ensures
            r == self.remaining().len(),
    {
        self.base.len()
    }
}

impl<T: TotalOrder> Default for IdentitySet<T> {
    /// Constructs a new, empty identity set.
    fn default() -> (r: Self)
        ensures
            r@ == Seq::<(T, ())>::empty(),
            r.wf(),
    {
        Self::new()
    }
}

} // verus!
