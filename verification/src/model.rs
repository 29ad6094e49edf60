//! The mathematical state of a ring buffer, the operations on it, and the
//! laws that those operations obey.
//!
//! A [`Ring`] is what a [`crate::CircularArray`] looks like to a proof: its
//! storage slot by slot, the slot that the next push writes, and the number of
//! pushes so far. Every executable operation of the buffer is specified as one
//! of the functions below applied to this state, so a law proved here holds of
//! the buffer itself.

use vstd::math::min;
use vstd::prelude::*;

verus! {

/// The state of a ring buffer whose capacity is `slots.len()`.
#[verifier::ext_equal]
pub struct Ring<T> {
    /// The storage in physical order, one entry per slot.
    pub slots: Seq<T>,
    /// The slot that the next push writes.
    pub write_pos: nat,
    /// The number of pushes made so far. It stops growing at `usize::MAX`.
    pub count: nat,
}

impl<T> Ring<T> {
    /// The number of slots. It never changes.
    pub open spec fn capacity(self) -> nat {
        self.slots.len()
    }

    /// The invariant that ties `write_pos` to `count`.
    ///
    /// While the ring is filling, the next push writes the slot whose index
    /// is the number of pushes so far. Once it is full, `write_pos` is any
    /// slot of the storage, and that slot holds the oldest element. A ring
    /// without slots keeps `write_pos` at zero.
    pub open spec fn wf(self) -> bool {
        &&& self.capacity() <= usize::MAX
        &&& self.count <= usize::MAX
        &&& if self.count < self.capacity() {
            self.write_pos == self.count
        } else if self.capacity() > 0 {
            self.write_pos < self.capacity()
        } else {
            self.write_pos == 0
        }
    }

    /// Whether every slot has been written at least once.
    pub open spec fn is_full(self) -> bool {
        self.count >= self.capacity()
    }

    /// The number of elements held: the pushes so far, at most the capacity.
    pub open spec fn live(self) -> nat {
        if self.is_full() {
            self.capacity()
        } else {
            self.count
        }
    }

    /// The slot that holds the element at logical index `i`, where index 0
    /// is the oldest element held.
    pub open spec fn slot_of(self, i: int) -> int {
        if self.is_full() {
            (self.write_pos + i) % (self.capacity() as int)
        } else {
            i
        }
    }

    /// The elements held, oldest first.
    pub open spec fn contents(self) -> Seq<T> {
        Seq::new(self.live(), |i: int| self.slots[self.slot_of(i)])
    }

    /// All slots in logical order: the storage from `write_pos` on, followed
    /// by the storage before it, once the ring has wrapped; the storage as it
    /// stands otherwise.
    pub open spec fn snapshot(self) -> Seq<T> {
        if self.is_full() && self.write_pos > 0 {
            self.slots.skip(self.write_pos as int) + self.slots.take(self.write_pos as int)
        } else {
            self.slots
        }
    }

    /// The element at logical index `i`, if one is held there.
    pub open spec fn get(self, i: int) -> Option<T> {
        if 0 <= i < self.live() {
            Some(self.contents()[i])
        } else {
            None
        }
    }

    /// The element pushed most recently, if the ring holds any.
    pub open spec fn last(self) -> Option<T> {
        self.get(self.live() - 1)
    }

    /// The ring with the element at logical index `i` replaced by `value`.
    pub open spec fn set(self, i: int, value: T) -> Ring<T> {
        Ring {
            slots: self.slots.update(self.slot_of(i), value),
            write_pos: self.write_pos,
            count: self.count,
        }
    }

    /// The ring after one push. The item goes into the slot at `write_pos`,
    /// which then moves on by one and wraps at the capacity. A ring without
    /// slots only counts the push.
    pub open spec fn push(self, item: T) -> Ring<T> {
        Ring {
            slots: if self.capacity() > 0 {
                self.slots.update(self.write_pos as int, item)
            } else {
                self.slots
            },
            write_pos: if self.capacity() > 0 {
                (self.write_pos + 1) % self.capacity()
            } else {
                self.write_pos
            },
            count: if self.count < usize::MAX {
                self.count + 1
            } else {
                self.count
            },
        }
    }

    /// The ring after pushing `items` one by one, first to last.
    pub open spec fn push_all(self, items: Seq<T>) -> Ring<T>
        decreases items.len(),
    {
        if items.len() == 0 {
            self
        } else {
            self.push_all(items.drop_last()).push(items.last())
        }
    }
}

/// The last `n` elements of `items`, or all of them where there are fewer.
pub open spec fn newest<T>(items: Seq<T>, n: nat) -> Seq<T> {
    if items.len() <= n {
        items
    } else {
        items.skip(items.len() - n)
    }
}

/// What a cursor hands out next when `rest` is still to come: the first
/// element of `rest`, or nothing at the end.
pub open spec fn yielded<T>(rest: Seq<T>) -> Option<T> {
    if rest.len() == 0 {
        None
    } else {
        Some(rest[0])
    }
}

/// What is still to come after the cursor has handed out one element. At the
/// end nothing changes.
pub open spec fn advanced<T>(rest: Seq<T>) -> Seq<T> {
    if rest.len() == 0 {
        rest
    } else {
        rest.drop_first()
    }
}

/// What is still to come after `calls` requests for the next element.
pub open spec fn advanced_by<T>(rest: Seq<T>, calls: nat) -> Seq<T>
    decreases calls,
{
    if calls == 0 {
        rest
    } else {
        advanced(advanced_by(rest, (calls - 1) as nat))
    }
}

/// Adding at most one full turn to a slot index wraps at most once.
pub proof fn lemma_wrap_once(pos: int, step: int, cap: int)
    requires
        0 <= pos < cap,
        0 <= step <= cap,
    ensures
        pos + step < cap ==> (pos + step) % cap == pos + step,
        pos + step >= cap ==> (pos + step) % cap == pos + step - cap,
{
    if pos + step < cap {
        assert((pos + step) % cap == pos + step) by (nonlinear_arith)
            requires
                0 <= pos + step < cap,
        ;
    } else {
        assert((pos + step) % cap == pos + step - cap) by (nonlinear_arith)
            requires
                cap <= pos + step < 2 * cap,
        ;
    }
}

/// A push keeps the capacity and the invariant.
pub proof fn lemma_push_keeps_wf<T>(ring: Ring<T>, item: T)
    requires
        ring.wf(),
    ensures
        ring.push(item).wf(),
        ring.push(item).capacity() == ring.capacity(),
{
    if ring.capacity() > 0 {
        lemma_wrap_once(ring.write_pos as int, 1, ring.capacity() as int);
    }
}

/// Overwrite on full: a push appends the item to the elements held, and once
/// the ring is full it drops the oldest element to make room.
pub proof fn lemma_push_contents<T>(ring: Ring<T>, item: T)
    requires
        ring.wf(),
    ensures
        ring.push(item).contents() == newest(ring.contents().push(item), ring.capacity()),
        !ring.is_full() ==> ring.push(item).contents() == ring.contents().push(item),
        ring.is_full() && ring.capacity() > 0 ==> ring.push(item).contents()
            == ring.contents().drop_first().push(item),
{
    let cap = ring.capacity() as int;
    let next = ring.push(item);
    lemma_push_keeps_wf(ring, item);
    if cap == 0 {
        assert(next.contents() =~= newest(ring.contents().push(item), 0));
    } else if ring.is_full() {
        let expected = ring.contents().drop_first().push(item);
        assert forall|i: int| 0 <= i < cap implies next.contents()[i] == expected[i] by {
            lemma_wrap_once(next.write_pos as int, i, cap);
            lemma_wrap_once(ring.write_pos as int, 1, cap);
            if i < cap - 1 {
                lemma_wrap_once(ring.write_pos as int, i + 1, cap);
            }
        }
        assert(next.contents() =~= expected);
        assert(expected =~= newest(ring.contents().push(item), ring.capacity()));
    } else {
        let expected = ring.contents().push(item);
        lemma_wrap_once(ring.write_pos as int, 1, cap);
        assert forall|i: int| 0 <= i < next.live() implies next.contents()[i] == expected[i] by {
            if next.is_full() {
                lemma_wrap_once(next.write_pos as int, i, cap);
            }
        }
        assert(next.contents() =~= expected);
    }
}

/// The snapshot always has one entry per slot, however many pushes were
/// made. It starts with the elements held, and once the ring is full it is
/// exactly the elements held.
pub proof fn lemma_snapshot_shape<T>(ring: Ring<T>)
    requires
        ring.wf(),
    ensures
        ring.snapshot().len() == ring.capacity(),
        ring.snapshot().take(ring.live() as int) == ring.contents(),
        ring.is_full() ==> ring.snapshot() == ring.contents(),
{
    let cap = ring.capacity() as int;
    assert forall|i: int| 0 <= i < ring.live() implies ring.snapshot()[i] == ring.contents()[i] by {
        if ring.is_full() {
            lemma_wrap_once(ring.write_pos as int, i, cap);
        }
    }
    assert(ring.snapshot().take(ring.live() as int) =~= ring.contents());
    if ring.is_full() {
        assert(ring.snapshot() =~= ring.contents());
    }
}

/// However much is pushed, the ring holds the newest elements that fit:
/// what it held before followed by the items pushed, cut down from the front
/// to the capacity.
pub proof fn lemma_push_all_keeps_newest<T>(ring: Ring<T>, items: Seq<T>)
    requires
        ring.wf(),
    ensures
        ring.push_all(items).wf(),
        ring.push_all(items).capacity() == ring.capacity(),
        ring.push_all(items).contents() == newest(ring.contents() + items, ring.capacity()),
    decreases items.len(),
{
    let cap = ring.capacity();
    if items.len() == 0 {
        assert(ring.contents() + items =~= ring.contents());
    } else {
        let before = ring.push_all(items.drop_last());
        let pushed = ring.contents() + items.drop_last();
        lemma_push_all_keeps_newest(ring, items.drop_last());
        lemma_push_keeps_wf(before, items.last());
        lemma_push_contents(before, items.last());
        assert(ring.contents() + items =~= pushed.push(items.last()));
        assert(before.push(items.last()).contents() =~= newest(
            pushed.push(items.last()),
            cap,
        ));
    }
}

/// Overwrite order: after more pushes into an empty ring than it has slots,
/// the snapshot is the last `capacity` items pushed, in the order in which
/// they were pushed.
pub proof fn lemma_overwrite_order<T>(ring: Ring<T>, items: Seq<T>)
    requires
        ring.wf(),
        ring.count == 0,
        items.len() >= ring.capacity(),
    ensures
        ring.push_all(items).snapshot() == items.skip(items.len() - ring.capacity()),
{
    lemma_push_all_keeps_newest(ring, items);
    lemma_push_all_counts(ring, items);
    lemma_snapshot_shape(ring.push_all(items));
    assert(ring.contents() + items =~= items);
    assert(items.skip(0) =~= items);
}

/// The count is cumulative, not capped at the capacity: every push adds one
/// to it, until it stands at `usize::MAX`.
pub proof fn lemma_push_all_counts<T>(ring: Ring<T>, items: Seq<T>)
    requires
        ring.count <= usize::MAX,
    ensures
        ring.push_all(items).count == min((ring.count + items.len()) as int, usize::MAX as int),
    decreases items.len(),
{
    if items.len() > 0 {
        lemma_push_all_counts(ring, items.drop_last());
    }
}

/// The last element of a ring with at least one slot is the item pushed most
/// recently.
pub proof fn lemma_last_is_latest_push<T>(ring: Ring<T>, item: T)
    requires
        ring.wf(),
        ring.capacity() > 0,
    ensures
        ring.push(item).last() == Some(item),
{
    lemma_push_keeps_wf(ring, item);
    lemma_push_contents(ring, item);
}

/// Two logical indices at which elements are held never share a slot.
pub proof fn lemma_slots_differ<T>(ring: Ring<T>, i: int, j: int)
    requires
        ring.wf(),
        0 <= i < ring.live(),
        0 <= j < ring.live(),
        i != j,
    ensures
        0 <= ring.slot_of(i) < ring.capacity(),
        ring.slot_of(i) != ring.slot_of(j),
{
    if ring.is_full() {
        lemma_wrap_once(ring.write_pos as int, i, ring.capacity() as int);
        lemma_wrap_once(ring.write_pos as int, j, ring.capacity() as int);
    }
}

/// Reading an index after writing it gives what was written, whether the
/// ring is still filling or has wrapped. The write changes the element at
/// that index and nothing else.
pub proof fn lemma_set_then_get<T>(ring: Ring<T>, i: int, value: T)
    requires
        ring.wf(),
        0 <= i < ring.live(),
    ensures
        ring.set(i, value).wf(),
        ring.set(i, value).get(i) == Some(value),
        ring.set(i, value).contents() == ring.contents().update(i, value),
{
    let after = ring.set(i, value);
    assert forall|j: int| 0 <= j < ring.live() implies after.contents()[j]
        == ring.contents().update(i, value)[j] by {
        if i != j {
            lemma_slots_differ(ring, i, j);
            lemma_slots_differ(ring, j, i);
        } else if ring.is_full() {
            lemma_wrap_once(ring.write_pos as int, i, ring.capacity() as int);
        }
    }
    assert(after.contents() =~= ring.contents().update(i, value));
}

/// A cursor hands out the elements in order, one per call, and nothing from
/// the end on, however often it is asked.
pub proof fn lemma_iteration_order<T>(rest: Seq<T>, calls: nat)
    ensures
        calls < rest.len() ==> advanced_by(rest, calls) == rest.skip(calls as int),
        calls < rest.len() ==> yielded(advanced_by(rest, calls)) == Some(rest[calls as int]),
        calls >= rest.len() ==> advanced_by(rest, calls) == Seq::<T>::empty(),
        calls >= rest.len() ==> yielded(advanced_by(rest, calls)) is None,
    decreases calls,
{
    if calls == 0 {
        assert(rest.skip(0) =~= rest);
        assert(rest.len() == 0 ==> rest =~= Seq::<T>::empty());
    } else {
        lemma_iteration_order(rest, (calls - 1) as nat);
        if calls - 1 < rest.len() {
            assert(rest.skip(calls - 1).drop_first() =~= rest.skip(calls as int));
        }
        if calls >= rest.len() {
            assert(advanced_by(rest, calls) =~= Seq::<T>::empty());
        }
    }
}

/// Walking a ring that began empty and took `items`: the cursor hands out
/// every item in push order where they all fit, and the newest `capacity` of
/// them, oldest first, where they do not; after that it hands out nothing.
pub proof fn lemma_iteration_after_pushes<T>(ring: Ring<T>, items: Seq<T>, calls: nat)
    requires
        ring.wf(),
        ring.count == 0,
    ensures
        ring.push_all(items).contents() == newest(items, ring.capacity()),
        newest(items, ring.capacity()).len() == min(items.len() as int, ring.capacity() as int),
        calls < newest(items, ring.capacity()).len() ==> yielded(
            advanced_by(ring.push_all(items).contents(), calls),
        ) == Some(newest(items, ring.capacity())[calls as int]),
        calls >= newest(items, ring.capacity()).len() ==> yielded(
            advanced_by(ring.push_all(items).contents(), calls),
        ) is None,
{
    lemma_push_all_keeps_newest(ring, items);
    assert(ring.contents() + items =~= items);
    lemma_iteration_order(ring.push_all(items).contents(), calls);
}

} // verus!
