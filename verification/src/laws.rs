//! Laws of the containers, stated and proved once for all instances.
//!
//! Each proof function here records a property that the contracts in the
//! rest of the crate promise together, so that a reader sees the property
//! stated rather than having to derive it.

use vstd::prelude::*;

use crate::identity_map::{
    entries_sorted, has_key, insert_pos, inserted, inserted_all, key_index, lemma_entry_found,
    lemma_insert_pos_unique, lemma_inserted_value, lemma_key_index, lemma_removed_value,
    lemma_sorted_distinct, removed, value_of,
};
use crate::order::{lt, TotalOrder};

verus! {

/// Sortedness gives uniqueness: in a sorted entry sequence no two distinct
/// positions carry the same key.
pub proof fn lemma_sorted_entries_unique<K: TotalOrder, V>(s: Seq<(K, V)>)
    requires
        entries_sorted(s),
    ensures
        forall|i: int, j: int|
            0 <= i < s.len() && 0 <= j < s.len() && i != j ==> (#[trigger] s[i]).0 != (
            #[trigger] s[j]).0,
{
    assert forall|i: int, j: int|
        0 <= i < s.len() && 0 <= j < s.len() && i != j implies (#[trigger] s[i]).0 != (
    #[trigger] s[j]).0 by {
        if s[i].0 == s[j].0 {
            lemma_sorted_distinct(s, i, j);
        }
    }
}

/// Storing twice under one key keeps only the last value: the first store
/// leaves no trace.
pub proof fn lemma_insert_last_wins<K: TotalOrder, V>(s: Seq<(K, V)>, k: K, v1: V, v2: V)
    requires
        entries_sorted(s),
    ensures
        inserted(inserted(s, k, v1), k, v2) == inserted(s, k, v2),
{
    let t = inserted(s, k, v1);
    lemma_inserted_value(s, k, v1);
    if has_key(s, k) {
        lemma_key_index(s, k);
        let w = key_index(s, k);
        assert(t[w] == (k, v1));
        lemma_entry_found(t, w);
        assert(inserted(t, k, v2) =~= inserted(s, k, v2));
    } else {
        let p = insert_pos(s, k);
        crate::identity_map::lemma_insert_pos(s, k);
        assert(t[p] == (k, v1));
        lemma_entry_found(t, p);
        assert(inserted(t, k, v2) =~= inserted(s, k, v2));
    }
}

/// Storing a run of distinct, absent keys grows the length by one per key:
/// starting from the empty sequence, storing `n` distinct keys gives length
/// `n`.
pub proof fn lemma_inserted_all_distinct_len<K: TotalOrder, V>(s: Seq<(K, V)>, t: Seq<(K, V)>)
    requires
        entries_sorted(s),
        forall|i: int, j: int|
            0 <= i < t.len() && 0 <= j < t.len() && i != j ==> (#[trigger] t[i]).0 != (
            #[trigger] t[j]).0,
        forall|i: int| 0 <= i < t.len() ==> !has_key(s, (#[trigger] t[i]).0),
    ensures
        entries_sorted(inserted_all(s, t)),
        inserted_all(s, t).len() == s.len() + t.len(),
    decreases t.len(),
{
    if t.len() > 0 {
        let s1 = inserted(s, t[0].0, t[0].1);
        lemma_inserted_value(s, t[0].0, t[0].1);
        let rest = t.subrange(1, t.len() as int);
        assert forall|i: int| 0 <= i < rest.len() implies !has_key(s1, (#[trigger] rest[i]).0) by {
            assert(rest[i] == t[i + 1]);
            assert(t[i + 1].0 != t[0].0);
        }
        assert forall|i: int, j: int|
            0 <= i < rest.len() && 0 <= j < rest.len() && i != j implies (#[trigger] rest[i]).0
            != (#[trigger] rest[j]).0 by {
            assert(rest[i] == t[i + 1]);
            assert(rest[j] == t[j + 1]);
        }
        lemma_inserted_all_distinct_len(s1, rest);
    }
}

/// Removing a key right after storing it undoes the store's effect on
/// lookups: the store made the key map to the stored value, the removal
/// leaves the key absent, and the length drops back by one.
pub proof fn lemma_remove_after_insert<K: TotalOrder, V>(s: Seq<(K, V)>, k: K, v: V)
    requires
        entries_sorted(s),
    ensures
        value_of(inserted(s, k, v), k) == Some(v),
        !has_key(removed(inserted(s, k, v), k), k),
        removed(inserted(s, k, v), k).len() + 1 == inserted(s, k, v).len(),
        forall|k2: K|
            k2 != k ==> #[trigger] value_of(removed(inserted(s, k, v), k), k2) == value_of(s, k2),
{
    lemma_inserted_value(s, k, v);
    lemma_removed_value(inserted(s, k, v), k);
}

/// Rebuilding, front first, onto a sorted prefix: when `p + rest` is sorted,
/// storing the entries of `rest` in turn appends each at the back.
pub proof fn lemma_rebuild_from<K: TotalOrder, V>(p: Seq<(K, V)>, rest: Seq<(K, V)>)
    requires
        entries_sorted(p + rest),
    ensures
        inserted_all(p, rest) == p + rest,
    decreases rest.len(),
{
    let c = p + rest;
    if rest.len() == 0 {
        assert(p + rest =~= p);
    } else {
        let e = rest[0];
        assert(entries_sorted(p)) by {
            assert forall|i: int, j: int| 0 <= i < j < p.len() implies lt(p[i].0, p[j].0) by {
                assert(p[i] == c[i]);
                assert(p[j] == c[j]);
            }
        }
        assert(!has_key(p, e.0)) by {
            if has_key(p, e.0) {
                let w = choose|i: int| 0 <= i < p.len() && p[i].0 == e.0;
                assert(c[w] == p[w]);
                assert(c[p.len() as int] == e);
                assert(lt(c[w].0, c[p.len() as int].0));
                assert(false);
            }
        }
        assert forall|i: int| #![trigger p[i]] 0 <= i < p.len() implies lt(p[i].0, e.0) by {
            assert(p[i] == c[i]);
            assert(c[p.len() as int] == e);
        }
        lemma_insert_pos_unique(p, e.0, p.len() as int);
        let p1 = p.push(e);
        assert(inserted(p, e.0, e.1) =~= p1);
        let rest1 = rest.subrange(1, rest.len() as int);
        assert(p1 + rest1 =~= c);
        lemma_rebuild_from(p1, rest1);
        assert(inserted_all(p, rest) == inserted_all(p1, rest1));
    }
}

/// Round trip: storing the entries of a sorted sequence, front first, into
/// an empty container rebuilds exactly that sequence. Iterating a map and
/// collecting the yielded entries therefore reconstructs the map.
pub proof fn lemma_rebuild<K: TotalOrder, V>(s: Seq<(K, V)>)
    requires
        entries_sorted(s),
    ensures
        inserted_all(Seq::<(K, V)>::empty(), s) == s,
{
    lemma_rebuild_from(Seq::<(K, V)>::empty(), s);
    assert(Seq::<(K, V)>::empty() + s =~= s);
}

/// The intersection of two sets is a subset of each operand.
pub proof fn lemma_intersection_subset<T>(a: Set<T>, b: Set<T>)
    ensures
        a.intersect(b).subset_of(a),
        a.intersect(b).subset_of(b),
{
}

/// Inclusion-exclusion for two finite sets: the union and the intersection
/// together count every element of both operands exactly once.
pub proof fn lemma_union_cardinality<T>(a: Set<T>, b: Set<T>)
    requires
        a.finite(),
        b.finite(),
    ensures
        a.union(b).finite(),
        a.intersect(b).finite(),
        a.union(b).len() + a.intersect(b).len() == a.len() + b.len(),
    decreases a.len(),
{
    if a.is_empty() {
        assert(a.union(b) =~= b);
        assert(a.intersect(b) =~= Set::<T>::empty());
    } else {
        let x = a.choose();
        let a1 = a.remove(x);
        lemma_union_cardinality(a1, b);
        if b.contains(x) {
            assert(a.union(b) =~= a1.union(b));
            assert(a.intersect(b) =~= a1.intersect(b).insert(x));
            assert(!a1.intersect(b).contains(x));
        } else {
            assert(a.union(b) =~= a1.union(b).insert(x));
            assert(a.intersect(b) =~= a1.intersect(b));
            assert(!a1.union(b).contains(x));
        }
    }
}

/// A strictly sorted key sequence names as many keys as it has positions:
/// its length equals the cardinality of the set of its elements.
pub proof fn lemma_sorted_key_count<T: TotalOrder>(s: Seq<T>)
    requires
        crate::identity_set::keys_sorted(s),
    ensures
        s.to_set().finite(),
        s.to_set().len() == s.len(),
{
    assert forall|i: int, j: int|
        0 <= i < s.len() && 0 <= j < s.len() && i != j implies s[i] != s[j] by {
        if i < j {
            assert(lt(s[i], s[j]));
        } else {
            assert(lt(s[j], s[i]));
        }
    }
    assert(s.no_duplicates());
    s.unique_seq_to_set();
}

} // verus!
