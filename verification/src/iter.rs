//! Iterators over a map's entries.
//!
//! None of these types implements the standard `Iterator` trait -- the
//! verifier does not specify it for user types -- so each offers inherent
//! `next` and `next_back` methods with the usual meaning: `next` yields the
//! front of the remaining run, `next_back` the back, and both are fused.

use vstd::prelude::*;

use crate::identity_map::IdentityMap;
use crate::order::TotalOrder;

verus! {

/// Borrowing identity map iterator, yielding entries in key order.
pub struct Iter<'a, K, V> {
    entries: &'a Vec<(K, V)>,
    pos: usize,
    end: usize,
}

impl<'a, K: TotalOrder, V> Iter<'a, K, V> {
    /// Constructs a new, borrowing identity map iterator.
    pub(crate) fn new(map: &'a IdentityMap<K, V>) -> (r: Self)
        ensures
            r.wf(),
            r.remaining() == map@,
    {
        let entries = map.entries_ref();
        let end = entries.len();
        proof {
            assert(entries@.subrange(0, entries@.len() as int) =~= entries@);
        }
        Iter { entries, pos: 0, end }
    }
}

impl<'a, K, V> Iter<'a, K, V> {
    /// The entries not yet yielded, in order.
    pub closed spec fn remaining(&self) -> Seq<(K, V)> {
        self.entries@.subrange(self.pos as int, self.end as int)
    }

    /// The iterator's invariant: its cursors stay within the buffer.
    pub closed spec fn wf(&self) -> bool {
        self.pos <= self.end <= self.entries@.len()
    }

    /// Yields the front entry of the remaining run, if any.
    pub fn next(&mut self) -> (r: Option<(&'a K, &'a V)>)
        requires
            old(self).wf(),
        ensures
            final(self).wf(),
            match r {
                Some((k, v)) => {
                    &&& old(self).remaining().len() > 0
                    &&& (*k, *v) == old(self).remaining()[0]
                    &&& final(self).remaining() == old(self).remaining().subrange(
                        1,
                        old(self).remaining().len() as int,
                    )
                },
                None => old(self).remaining().len() == 0 && *final(self) == *old(self),
            },
    {
        if self.pos < self.end {
            let entry = &self.entries[self.pos];
            self.pos = self.pos + 1;
            proof {
                assert(self.remaining() =~= old(self).remaining().subrange(
                    1,
                    old(self).remaining().len() as int,
                ));
            }
            Some((&entry.0, &entry.1))
        } else {
            None
        }
    }

    /// Yields the back entry of the remaining run, if any.
    pub fn next_back(&mut self) -> (r: Option<(&'a K, &'a V)>)
        requires
            old(self).wf(),
        ensures
            final(self).wf(),
            match r {
                Some((k, v)) => {
                    &&& old(self).remaining().len() > 0
                    &&& (*k, *v) == old(self).remaining().last()
                    &&& final(self).remaining() == old(self).remaining().drop_last()
                },
                None => old(self).remaining().len() == 0 && *final(self) == *old(self),
            },
    {
        if self.pos < self.end {
            self.end = self.end - 1;
            let entry = &self.entries[self.end];
            proof {
                assert(self.remaining() =~= old(self).remaining().drop_last());
            }
            Some((&entry.0, &entry.1))
        } else {
            None
        }
    }

    /// The exact number of entries left to yield.
    pub fn len(&self) -> (r: usize)
        requires
            self.wf(),
        ensures
            r == self.remaining().len(),
    {
        self.end - self.pos
    }
}

/// Owning cursor over a buffer of entries, yielding them front or back.
///
/// This is the shared machinery of the owning iterators: it holds the
/// detached buffer and hands its entries out by value, exactly once each.
pub struct RawIter<K, V> {
    buf: Vec<(K, V)>,
}

impl<K, V> RawIter<K, V> {
    /// The entries not yet yielded, in order.
    pub closed spec fn remaining(&self) -> Seq<(K, V)> {
        self.buf@
    }

    /// Constructs a cursor owning the given buffer.
    pub fn new(buf: Vec<(K, V)>) -> (r: Self)
        ensures
            r.remaining() == buf@,
    {
        RawIter { buf }
    }

    /// Yields the front entry of the remaining run, if any, moving it out.
    pub fn next(&mut self) -> (r: Option<(K, V)>)
        ensures
            match r {
                Some(e) => {
                    &&& old(self).remaining().len() > 0
                    &&& e == old(self).remaining()[0]
                    &&& final(self).remaining() == old(self).remaining().subrange(
                        1,
                        old(self).remaining().len() as int,
                    )
                },
                None => old(self).remaining().len() == 0 && final(self).remaining() == old(self).remaining(),
            },
    {
        if self.buf.len() > 0 {
            let entry = self.buf.remove(0);
            proof {
                assert(self.remaining() =~= old(self).remaining().subrange(
                    1,
                    old(self).remaining().len() as int,
                ));
            }
            Some(entry)
        } else {
            None
        }
    }

    /// Yields the back entry of the remaining run, if any, moving it out.
    pub fn next_back(&mut self) -> (r: Option<(K, V)>)
        ensures
            match r {
                Some(e) => {
                    &&& old(self).remaining().len() > 0
                    &&& e == old(self).remaining().last()
                    &&& final(self).remaining() == old(self).remaining().drop_last()
                },
                None => old(self).remaining().len() == 0 && final(self).remaining() == old(self).remaining(),
            },
    {
        let r = self.buf.pop();
        proof {
            if old(self).remaining().len() > 0 {
                assert(self.remaining() =~= old(self).remaining().drop_last());
            }
        }
        r
    }

    /// The exact number of entries left to yield.
    pub fn len(&self) -> (r: usize)
        ensures
            r == self.remaining().len(),
    {
        self.buf.len()
    }

    /// Borrows the remaining entries. A raw pointer into the buffer has no
    /// safe counterpart, so this shared view of the not-yet-yielded run
    /// plays its role.
    pub fn as_ptr(&self) -> (r: &[(K, V)])
        ensures
            r@ == self.remaining(),
    {
        self.buf.as_slice()
    }

    /// Uniquely borrows the remaining entries; the unique counterpart of
    /// [`RawIter::as_ptr`]. Writes through it land in the buffer.
    pub fn as_mut_ptr(&mut self) -> (r: &mut [(K, V)])
        ensures
            r@ == old(self).remaining(),
            final(r)@ == final(self).remaining(),
    {
        self.buf.as_mut_slice()
    }
}

/// Borrowing identity map iterator over the keys, in ascending order.
pub struct Keys<'a, K, V> {
    iter: Iter<'a, K, V>,
}

impl<'a, K: TotalOrder, V> Keys<'a, K, V> {
    /// Constructs a new, borrowing identity map keys iterator.
    pub(crate) fn new(map: &'a IdentityMap<K, V>) -> (r: Self)
        ensures
            r.wf(),
            r.remaining() == map@,
    {
        Keys { iter: Iter::new(map) }
    }
}

impl<'a, K, V> Keys<'a, K, V> {
    /// The entries whose keys are not yet yielded, in order.
    pub closed spec fn remaining(&self) -> Seq<(K, V)> {
        self.iter.remaining()
    }

    /// The iterator's invariant.
    pub closed spec fn wf(&self) -> bool {
        self.iter.wf()
    }

    /// Yields the front key of the remaining run, if any.
    pub fn next(&mut self) -> (r: Option<&'a K>)
        requires
            old(self).wf(),
        ensures
            final(self).wf(),
            match r {
                Some(k) => {
                    &&& old(self).remaining().len() > 0
                    &&& *k == old(self).remaining()[0].0
                    &&& final(self).remaining() == old(self).remaining().subrange(
                        1,
                        old(self).remaining().len() as int,
                    )
                },
                None => old(self).remaining().len() == 0 && *final(self) == *old(self),
            },
    {
        match self.iter.next() {
            Some((k, _)) => Some(k),
            None => None,
        }
    }

    /// Yields the back key of the remaining run, if any.
    pub fn next_back(&mut self) -> (r: Option<&'a K>)
        requires
            old(self).wf(),
        ensures
            final(self).wf(),
            match r {
                Some(k) => {
                    &&& old(self).remaining().len() > 0
                    &&& *k == old(self).remaining().last().0
                    &&& final(self).remaining() == old(self).remaining().drop_last()
                },
                None => old(self).remaining().len() == 0 && *final(self) == *old(self),
            },
    {
        match self.iter.next_back() {
            Some((k, _)) => Some(k),
            None => None,
        }
    }

    /// The exact number of keys left to yield.
    pub fn len(&self) -> (r: usize)
        requires
            self.wf(),
        ensures
            r == self.remaining().len(),
    {
        self.iter.len()
    }
}

/// Borrowing identity map iterator over the values, in key order.
pub struct Values<'a, K, V> {
    iter: Iter<'a, K, V>,
}

impl<'a, K: TotalOrder, V> Values<'a, K, V> {
    /// Constructs a new, borrowing identity map values iterator.
    pub(crate) fn new(map: &'a IdentityMap<K, V>) -> (r: Self)
        ensures
            r.wf(),
            r.remaining() == map@,
    {
        Values { iter: Iter::new(map) }
    }
}

impl<'a, K, V> Values<'a, K, V> {
    /// The entries whose values are not yet yielded, in order.
    pub closed spec fn remaining(&self) -> Seq<(K, V)> {
        self.iter.remaining()
    }

    /// The iterator's invariant.
    pub closed spec fn wf(&self) -> bool {
        self.iter.wf()
    }

    /// Yields the front value of the remaining run, if any.
    pub fn next(&mut self) -> (r: Option<&'a V>)
        requires
            old(self).wf(),
        ensures
            final(self).wf(),
            match r {
                Some(v) => {
                    &&& old(self).remaining().len() > 0
                    &&& *v == old(self).remaining()[0].1
                    &&& final(self).remaining() == old(self).remaining().subrange(
                        1,
                        old(self).remaining().len() as int,
                    )
                },
                None => old(self).remaining().len() == 0 && *final(self) == *old(self),
            },
    {
        match self.iter.next() {
            Some((_, v)) => Some(v),
            None => None,
        }
    }

    /// Yields the back value of the remaining run, if any.
    pub fn next_back(&mut self) -> (r: Option<&'a V>)
        requires
            old(self).wf(),
        ensures
            final(self).wf(),
            match r {
                Some(v) => {
                    &&& old(self).remaining().len() > 0
                    &&& *v == old(self).remaining().last().1
                    &&& final(self).remaining() == old(self).remaining().drop_last()
                },
                None => old(self).remaining().len() == 0 && *final(self) == *old(self),
            },
    {
        match self.iter.next_back() {
            Some((_, v)) => Some(v),
            None => None,
        }
    }

    /// The exact number of values left to yield.
    pub fn len(&self) -> (r: usize)
        requires
            self.wf(),
        ensures
            r == self.remaining().len(),
    {
        self.iter.len()
    }
}

/// Owning identity map iterator, yielding entries by value in key order.
pub struct IntoIter<K, V> {
    base: RawIter<K, V>,
}

impl<K, V> IntoIter<K, V> {
    /// The entries not yet yielded, in order.
    pub closed spec fn remaining(&self) -> Seq<(K, V)> {
        self.base.remaining()
    }

    /// Constructs a new, owning identity map iterator.
    pub(crate) fn new(buf: Vec<(K, V)>) -> (r: Self)
        ensures
            r.remaining() == buf@,
    {
        IntoIter { base: RawIter::new(buf) }
    }

    /// Yields the front entry of the remaining run, if any, moving it out.
    pub fn next(&mut self) -> (r: Option<(K, V)>)
        ensures
            match r {
                Some(e) => {
                    &&& old(self).remaining().len() > 0
                    &&& e == old(self).remaining()[0]
                    &&& final(self).remaining() == old(self).remaining().subrange(
                        1,
                        old(self).remaining().len() as int,
                    )
                },
                None => old(self).remaining().len() == 0 && final(self).remaining() == old(
                    self,
                ).remaining(),
            },
    {
        self.base.next()
    }

    /// Yields the back entry of the remaining run, if any, moving it out.
    pub fn next_back(&mut self) -> (r: Option<(K, V)>)
        ensures
            match r {
                Some(e) => {
                    &&& old(self).remaining().len() > 0
                    &&& e == old(self).remaining().last()
                    &&& final(self).remaining() == old(self).remaining().drop_last()
                },
                None => old(self).remaining().len() == 0 && final(self).remaining() == old(
                    self,
                ).remaining(),
            },
    {
        self.base.next_back()
    }

    /// The exact number of entries left to yield.
    pub fn len(&self) -> (r: usize)
        ensures
            r == self.remaining().len(),
    {
        self.base.len()
    }
}

/// Owning identity map iterator over the keys, in ascending order.
pub struct IntoKeys<K, V> {
    base: IntoIter<K, V>,
}

impl<K, V> IntoKeys<K, V> {
    /// The entries whose keys are not yet yielded, in order.
    pub closed spec fn remaining(&self) -> Seq<(K, V)> {
        self.base.remaining()
    }

    /// Constructs a new, owning identity map keys iterator.
    pub(crate) fn new(buf: Vec<(K, V)>) -> (r: Self)
        ensures
            r.remaining() == buf@,
    {
        IntoKeys { base: IntoIter::new(buf) }
    }

    /// Yields the front key of the remaining run, if any, moving it out.
    /// The value stored beside it is dropped.
    pub fn next(&mut self) -> (r: Option<K>)
        ensures
            match r {
                Some(k) => {
                    &&& old(self).remaining().len() > 0
                    &&& k == old(self).remaining()[0].0
                    &&& final(self).remaining() == old(self).remaining().subrange(
                        1,
                        old(self).remaining().len() as int,
                    )
                },
                None => old(self).remaining().len() == 0 && final(self).remaining() == old(
                    self,
                ).remaining(),
            },
    {
        match self.base.next() {
            Some((k, _)) => Some(k),
            None => None,
        }
    }

    /// Yields the back key of the remaining run, if any, moving it out.
    /// The value stored beside it is dropped.
    pub fn next_back(&mut self) -> (r: Option<K>)
        ensures
            match r {
                Some(k) => {
                    &&& old(self).remaining().len() > 0
                    &&& k == old(self).remaining().last().0
                    &&& final(self).remaining() == old(self).remaining().drop_last()
                },
                None => old(self).remaining().len() == 0 && final(self).remaining() == old(
                    self,
                ).remaining(),
            },
    {
        match self.base.next_back() {
            Some((k, _)) => Some(k),
            None => None,
        }
    }

    /// The exact number of keys left to yield.
    pub fn len(&self) -> (r: usize)
        ensures
            r == self.remaining().len(),
    {
        self.base.len()
    }
}

/// Owning identity map iterator over the values, in key order.
pub struct IntoValues<K, V> {
    base: IntoIter<K, V>,
}

impl<K, V> IntoValues<K, V> {
    /// The entries whose values are not yet yielded, in order.
    pub closed spec fn remaining(&self) -> Seq<(K, V)> {
        self.base.remaining()
    }

    /// Constructs a new, owning identity map values iterator.
    pub(crate) fn new(buf: Vec<(K, V)>) -> (r: Self)
        ensures
            r.remaining() == buf@,
    {
        IntoValues { base: IntoIter::new(buf) }
    }

    /// Yields the front value of the remaining run, if any, moving it out.
    /// The key stored beside it is dropped.
    pub fn next(&mut self) -> (r: Option<V>)
        ensures
            match r {
                Some(v) => {
                    &&& old(self).remaining().len() > 0
                    &&& v == old(self).remaining()[0].1
                    &&& final(self).remaining() == old(self).remaining().subrange(
                        1,
                        old(self).remaining().len() as int,
                    )
                },
                None => old(self).remaining().len() == 0 && final(self).remaining() == old(
                    self,
                ).remaining(),
            },
    {
        match self.base.next() {
            Some((_, v)) => Some(v),
            None => None,
        }
    }

    /// Yields the back value of the remaining run, if any, moving it out.
    /// The key stored beside it is dropped.
    pub fn next_back(&mut self) -> (r: Option<V>)
        ensures
            match r {
                Some(v) => {
                    &&& old(self).remaining().len() > 0
                    &&& v == old(self).remaining().last().1
                    &&& final(self).remaining() == old(self).remaining().drop_last()
                },
                None => old(self).remaining().len() == 0 && final(self).remaining() == old(
                    self,
                ).remaining(),
            },
    {
        match self.base.next_back() {
            Some((_, v)) => Some(v),
            None => None,
        }
    }

    /// The exact number of values left to yield.
    pub fn len(&self) -> (r: usize)
        ensures
            r == self.remaining().len(),
    {
        self.base.len()
    }
}

/// Draining identity map iterator.
///
/// Constructing it detaches every entry from the source map at once -- the
/// map is empty as soon as the drain exists -- and the detached entries are
/// then yielded by value, in key order. Entries never yielded are dropped
/// with the drain.
pub struct Drain<K, V> {
    base: RawIter<K, V>,
}

impl<K, V> Drain<K, V> {
    /// The entries not yet yielded, in order.
    pub closed spec fn remaining(&self) -> Seq<(K, V)> {
        self.base.remaining()
    }

    /// Constructs a new identity map drain from the detached buffer.
    pub(crate) fn new(buf: Vec<(K, V)>) -> (r: Self)
        ensures
            r.remaining() == buf@,
    {
        Drain { base: RawIter::new(buf) }
    }

    /// Yields the front entry of the remaining run, if any, moving it out.
    pub fn next(&mut self) -> (r: Option<(K, V)>)
        ensures
            match r {
                Some(e) => {
                    &&& old(self).remaining().len() > 0
                    &&& e == old(self).remaining()[0]
                    &&& final(self).remaining() == old(self).remaining().subrange(
                        1,
                        old(self).remaining().len() as int,
                    )
                },
                None => old(self).remaining().len() == 0 && final(self).remaining() == old(
                    self,
                ).remaining(),
            },
    {
        self.base.next()
    }

    /// Yields the back entry of the remaining run, if any, moving it out.
    pub fn next_back(&mut self) -> (r: Option<(K, V)>)
        ensures
            match r {
                Some(e) => {
                    &&& old(self).remaining().len() > 0
                    &&& e == old(self).remaining().last()
                    &&& final(self).remaining() == old(self).remaining().drop_last()
                },
                None => old(self).remaining().len() == 0 && final(self).remaining() == old(
                    self,
                ).remaining(),
            },
    {
        self.base.next_back()
    }

    /// The exact number of entries left to yield.
    pub fn len(&self) -> (r: usize)
        ensures
            r == self.remaining().len(),
    {
        self.base.len()
    }
}

/// Mutating pass over a map's entries, as a cursor of buffer positions.
///
/// The verifier does not let an iterator hand out live `&mut` borrows from a
/// stored reference, so the mutable pass is split: this cursor yields each
/// position of the live region once, front to back or back to front, and the
/// entry there is read with [`IdentityMap::get_entry`] and its value written
/// with [`IdentityMap::set_value`].
pub struct IterMut {
    pos: usize,
    end: usize,
}

impl IterMut {
    /// The next position the cursor will yield from the front.
    pub closed spec fn cursor(&self) -> int {
        self.pos as int
    }

    /// The position just past the last one the cursor will yield.
    pub closed spec fn stop(&self) -> int {
        self.end as int
    }

    /// The cursor's invariant.
    pub closed spec fn wf(&self) -> bool {
        self.pos <= self.end
    }

    /// Constructs a cursor over the positions `0 .. end`.
    pub(crate) fn new(end: usize) -> (r: Self)
        ensures
            r.wf(),
            r.cursor() == 0,
            r.stop() == end,
    {
        IterMut { pos: 0, end }
    }

    /// Yields the front position of the remaining run, if any.
    pub fn next(&mut self) -> (r: Option<usize>)
        requires
            old(self).wf(),
        ensures
            final(self).wf(),
            match r {
                Some(i) => {
                    &&& old(self).cursor() < old(self).stop()
                    &&& i == old(self).cursor()
                    &&& final(self).cursor() == old(self).cursor() + 1
                    &&& final(self).stop() == old(self).stop()
                },
                None => old(self).cursor() == old(self).stop() && *final(self) == *old(self),
            },
    {
        if self.pos < self.end {
            let i = self.pos;
            self.pos = self.pos + 1;
            Some(i)
        } else {
            None
        }
    }

    /// Yields the back position of the remaining run, if any.
    pub fn next_back(&mut self) -> (r: Option<usize>)
        requires
            old(self).wf(),
        ensures
            final(self).wf(),
            match r {
                Some(i) => {
                    &&& old(self).cursor() < old(self).stop()
                    &&& i == old(self).stop() - 1
                    &&& final(self).stop() == old(self).stop() - 1
                    &&& final(self).cursor() == old(self).cursor()
                },
                None => old(self).cursor() == old(self).stop() && *final(self) == *old(self),
            },
    {
        if self.pos < self.end {
            self.end = self.end - 1;
            Some(self.end)
        } else {
            None
        }
    }

    /// The exact number of positions left to yield.
    pub fn len(&self) -> (r: usize)
        requires
            self.wf(),
        ensures
            r == self.stop() - self.cursor(),
    {
        self.end - self.pos
    }
}

/// Mutating pass over a map's values, as a cursor of buffer positions.
///
/// The same cursor as [`IterMut`], offered under the name callers of a map
/// expect when only the values are of interest: each yielded position's
/// value is read with [`IdentityMap::get_entry`] and written with
/// [`IdentityMap::set_value`].
pub struct ValuesMut {
    base: IterMut,
}

impl ValuesMut {
    /// The next position the cursor will yield from the front.
    pub closed spec fn cursor(&self) -> int {
        self.base.cursor()
    }

    /// The position just past the last one the cursor will yield.
    pub closed spec fn stop(&self) -> int {
        self.base.stop()
    }

    /// The cursor's invariant.
    pub closed spec fn wf(&self) -> bool {
        self.base.wf()
    }

    /// Constructs a cursor over the positions `0 .. end`.
    pub(crate) fn new(end: usize) -> (r: Self)
        ensures
            r.wf(),
            r.cursor() == 0,
            r.stop() == end,
    {
        ValuesMut { base: IterMut::new(end) }
    }

    /// Yields the front position of the remaining run, if any.
    pub fn next(&mut self) -> (r: Option<usize>)
        requires
            old(self).wf(),
        ensures
            final(self).wf(),
            match r {
                Some(i) => {
                    &&& old(self).cursor() < old(self).stop()
                    &&& i == old(self).cursor()
                    &&& final(self).cursor() == old(self).cursor() + 1
                    &&& final(self).stop() == old(self).stop()
                },
                None => old(self).cursor() == old(self).stop() && *final(self) == *old(self),
            },
    {
        self.base.next()
    }

    /// Yields the back position of the remaining run, if any.
    pub fn next_back(&mut self) -> (r: Option<usize>)
        requires
            old(self).wf(),
        ensures
            final(self).wf(),
            match r {
                Some(i) => {
                    &&& old(self).cursor() < old(self).stop()
                    &&& i == old(self).stop() - 1
                    &&& final(self).stop() == old(self).stop() - 1
                    &&& final(self).cursor() == old(self).cursor()
                },
                None => old(self).cursor() == old(self).stop() && *final(self) == *old(self),
            },
    {
        self.base.next_back()
    }

    /// The exact number of positions left to yield.
    pub fn len(&self) -> (r: usize)
        requires
            self.wf(),
        ensures
            r == self.stop() - self.cursor(),
    {
        self.base.len()
    }
}

} // verus!
