//! The waker registry: stable handles, reuse of freed slots, and delivery of
//! one notification at a time.

use crate::list::AtomicLinkedList;
use crate::model::{Registry, Slot};
use crate::waker::notify;
use core::task::Waker;
use vstd::prelude::*;

verus! {

/// Names one slot of a registry. It is handed out by `register` and given
/// back, by value, to `reregister` or `unregister`.
pub struct WakeHandle(usize);

impl View for WakeHandle {
    type V = int;

    /// The index of the slot that the handle names.
    closed spec fn view(&self) -> int {
        self.0 as int
    }
}

impl WakeHandle {
    /// The index of the slot that the handle names.
    pub fn index(&self) -> (index: usize)
        ensures
            index == self@,
    {
        self.0
    }
}

/// A `WakeList` stores append-only lists of wakers and garbage.
pub struct WakeList {
    /// The slots, the most recently allocated at the head.
    wakers: AtomicLinkedList<Slot>,
    /// The markers of freed slots, the newest at the head.
    garbage: AtomicLinkedList<usize>,
    /// The next fresh index, which is the length of `wakers`.
    size: usize,
}

impl View for WakeList {
    type V = Registry;

    closed spec fn view(&self) -> Registry {
        Registry {
            slots: Seq::new(
                self.wakers@.len(),
                |index: int| self.wakers@[self.wakers@.len() - 1 - index],
            ),
            garbage: self.garbage@.map_values(|marker: usize| marker as nat),
        }
    }
}

impl WakeList {
    /// Both lists are well formed, and the counter holds the number of
    /// slots.
    pub closed spec fn counted(&self) -> bool {
        &&& self.wakers.wf()
        &&& self.garbage.wf()
        &&& self.size == self.wakers@.len()
    }

    /// The registry is consistent in itself, and its state is well formed.
    pub open spec fn wf(&self) -> bool {
        &&& self.counted()
        &&& self@.wf()
    }

    /// An empty registry.
    pub fn new() -> (list: Self)
        ensures
            list.wf(),
            list@ == Registry::empty(),
    {
        let wakers = AtomicLinkedList::new();
        let garbage = AtomicLinkedList::new();
        let size: usize = 0;
        let list = Self { wakers, garbage, size };
        assert(list@.slots =~= Seq::empty());
        assert(list@.garbage =~= Seq::empty());
        list
    }

    /// The number of slots ever allocated: one more than the highest index
    /// that a handle of this registry can hold.
    pub fn size(&self) -> (size: usize)
        requires
            self.wf(),
        ensures
            size == self@.size(),
    {
        self.size
    }

    /// Clears the newest marker that is set and returns the index it named.
    fn claim_marker(&mut self) -> (claimed: Option<usize>)
        requires
            old(self).wf(),
        ensures
            final(self).wf(),
            final(self).wakers == old(self).wakers,
            final(self).size == old(self).size,
            match old(self)@.first_marker() {
                Some(k) => {
                    &&& claimed == Some((old(self)@.garbage[k] - 1) as usize)
                    &&& final(self)@.garbage == old(self)@.garbage.update(k, 0)
                },
                None => {
                    &&& claimed is None
                    &&& final(self)@.garbage == old(self)@.garbage
                },
            },
    {
        let mut it = self.garbage.iter();
        let mut place: usize = 0;
        let mut marker: usize = 0;
        loop
            invariant_except_break
                it.remaining() == self.garbage@.skip(place as int),
                marker == 0,
            invariant
                place <= self.garbage@.len(),
                forall|j: int| 0 <= j < place ==> #[trigger] self.garbage@[j] == 0,
            ensures
                marker == 0 ==> place == self.garbage@.len(),
                marker != 0 ==> place < self.garbage@.len() && self.garbage@[place as int]
                    == marker,
            decreases it.remaining().len(),
        {
            match it.next() {
                None => {
                    break ;
                },
                Some(found) => {
                    if *found != 0 {
                        marker = *found;
                        break ;
                    }
                    proof {
                        self.garbage.lemma_len_fits();
                    }
                    place = place + 1;
                },
            }
        }
        if marker == 0 {
            proof {
                self@.lemma_no_marker();
            }
            return None;
        }
        proof {
            self@.lemma_first_marker(place as int);
        }
        let cell = self.garbage.nth_mut(place);
        *cell = 0;
        assert(self@.garbage =~= old(self)@.garbage.update(place as int, 0));
        Some(marker - 1)
    }

    /// Registers `waker` and returns the handle of its slot.
    ///
    /// The slot named by the newest garbage marker is taken over if there is
    /// one: the marker is cleared and the slot's waker replaced. Otherwise a
    /// new slot is allocated, with the next fresh index.
    pub fn register(&mut self, waker: Option<Waker>) -> (handle: WakeHandle)
        requires
            old(self).wf(),
        ensures
            final(self).wf(),
            final(self)@ == old(self)@.register(waker),
            handle@ == old(self)@.next_index(),
    {
        match self.claim_marker() {
            Some(index) => {
                let distance = self.size - 1 - index;
                let slot = self.wakers.nth_mut(distance);
                slot.waker = waker;
                assert(self@.slots =~= old(self)@.register(waker).slots);
                WakeHandle(index)
            },
            None => {
                self.wakers.push(Slot { pending: false, waker });
                let index = self.size;
                self.size = self.size + 1;
                assert(self@.slots =~= old(self)@.register(waker).slots);
                WakeHandle(index)
            },
        }
    }

    /// Replaces the waker of the slot that `handle` names. The slot keeps its
    /// place and its flag.
    pub fn reregister(&mut self, handle: WakeHandle, waker: Waker)
        requires
            old(self).wf(),
            handle@ < old(self)@.size(),
        ensures
            final(self).wf(),
            final(self)@ == old(self)@.reregister(handle@, waker),
    {
        let distance = self.size - 1 - handle.0;
        let slot = self.wakers.nth_mut(distance);
        slot.waker = Some(waker);
        assert(self@.slots =~= old(self)@.reregister(handle@, waker).slots);
    }

    /// Frees the slot that `handle` names: its waker is dropped, its flag
    /// unset, and its index published for a later `register` to take over.
    pub fn unregister(&mut self, handle: WakeHandle)
        requires
            old(self).wf(),
            handle@ < old(self)@.size(),
        ensures
            final(self).wf(),
            final(self)@ == old(self)@.unregister(handle@),
    {
        let distance = self.size - 1 - handle.0;
        let slot = self.wakers.nth_mut(distance);
        slot.waker = None;
        slot.pending = false;
        self.garbage.push(handle.0 + 1);
        assert(self@.slots =~= old(self)@.unregister(handle@).slots);
        assert(self@.garbage =~= old(self)@.unregister(handle@).garbage);
    }

    /// Delivers one notification: the most recently allocated slot whose flag
    /// is unset has its flag set and its waker, if it holds one, notified.
    /// Returns whether there was such a slot.
    pub fn wake_one(&mut self) -> (woke: bool)
        requires
            old(self).wf(),
        ensures
            final(self).wf(),
            woke == old(self)@.next_wake().is_some(),
            final(self)@ == old(self)@.wake_one(),
    {
        let mut it = self.wakers.iter();
        let mut distance: usize = 0;
        let mut found = false;
        loop
            invariant_except_break
                it.remaining() == self.wakers@.skip(distance as int),
                !found,
            invariant
                distance <= self.wakers@.len(),
                forall|j: int| 0 <= j < distance ==> (#[trigger] self.wakers@[j]).pending,
            ensures
                !found ==> distance == self.wakers@.len(),
                found ==> distance < self.wakers@.len() && !self.wakers@[distance as int].pending,
            decreases it.remaining().len(),
        {
            match it.next() {
                None => {
                    break ;
                },
                Some(slot) => {
                    if !slot.pending {
                        found = true;
                        break ;
                    }
                    proof {
                        self.wakers.lemma_len_fits();
                    }
                    distance = distance + 1;
                },
            }
        }
        if !found {
            proof {
                self@.lemma_no_wake();
            }
            return false;
        }
        proof {
            self@.lemma_next_wake(self.size - 1 - distance);
        }
        let slot = self.wakers.nth_mut(distance);
        slot.pending = true;
        if let Some(waker) = &slot.waker {
            notify(waker);
        }
        assert(self@.slots =~= old(self)@.wake_one().slots);
        true
    }
}

} // verus!
