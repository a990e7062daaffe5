//! The registry as a mathematical value, and what each operation makes of it.

use core::task::Waker;
use vstd::prelude::*;

verus! {

/// One cell of the registry.
pub struct Slot {
    /// Set once a notification has been delivered to this slot; a slot with
    /// the flag set is passed over by later deliveries.
    pub pending: bool,
    /// The waker to notify, if one is stored.
    pub waker: Option<Waker>,
}

/// The state of a registry: its slots and its garbage markers.
pub struct Registry {
    /// The slots by index, in the order in which they were allocated.
    pub slots: Seq<Slot>,
    /// The garbage markers, newest first. A marker is zero (nothing to reuse
    /// here) or the index of a freed slot plus one.
    pub garbage: Seq<nat>,
}

impl Registry {
    /// The registry with no slot and no marker.
    pub open spec fn empty() -> Registry {
        Registry { slots: Seq::empty(), garbage: Seq::empty() }
    }

    /// The number of slots ever allocated.
    pub open spec fn size(self) -> nat {
        self.slots.len()
    }

    /// Every marker that is set names a slot that exists.
    pub open spec fn wf(self) -> bool {
        forall|k: int|
            0 <= k < self.garbage.len() && #[trigger] self.garbage[k] != 0 ==> self.garbage[k]
                <= self.slots.len()
    }

    /// No slot is offered for reuse by two markers at once. This holds as
    /// long as no slot is freed again while it is free.
    pub open spec fn markers_distinct(self) -> bool {
        forall|j: int, k: int|
            0 <= j < k < self.garbage.len() && #[trigger] self.garbage[j] != 0
                ==> self.garbage[j] != #[trigger] self.garbage[k]
    }

    /// Slot `index` has been freed and not yet been handed out again.
    pub open spec fn is_free(self, index: int) -> bool {
        exists|k: int| 0 <= k < self.garbage.len() && #[trigger] self.garbage[k] == index + 1
    }

    /// `k` is the place of the newest marker that is set.
    pub open spec fn is_first_marker(self, k: int) -> bool {
        &&& 0 <= k < self.garbage.len()
        &&& self.garbage[k] != 0
        &&& forall|j: int| 0 <= j < k ==> #[trigger] self.garbage[j] == 0
    }

    /// The place of the newest marker that is set, if any is.
    pub open spec fn first_marker(self) -> Option<int> {
        if exists|k: int| self.is_first_marker(k) {
            Some(choose|k: int| self.is_first_marker(k))
        } else {
            None
        }
    }

    /// The index that the next registration is given: that of the slot named
    /// by the newest marker that is set, or else that of a new slot.
    pub open spec fn next_index(self) -> int {
        match self.first_marker() {
            Some(k) => self.garbage[k] - 1,
            None => self.slots.len() as int,
        }
    }

    /// The state after a registration of `waker`. A freed slot is taken over
    /// with its flag as it stands and its marker cleared; without one, a new
    /// slot with the flag unset is added.
    pub open spec fn register(self, waker: Option<Waker>) -> Registry {
        match self.first_marker() {
            Some(k) => {
                let index = self.garbage[k] - 1;
                Registry {
                    slots: self.slots.update(
                        index,
                        Slot { pending: self.slots[index].pending, waker },
                    ),
                    garbage: self.garbage.update(k, 0),
                }
            },
            None => Registry {
                slots: self.slots.push(Slot { pending: false, waker }),
                garbage: self.garbage,
            },
        }
    }

    /// The state after slot `index` has been given `waker` in place of
    /// whatever it held. The flag is left alone.
    pub open spec fn reregister(self, index: int, waker: Waker) -> Registry {
        Registry {
            slots: self.slots.update(
                index,
                Slot { pending: self.slots[index].pending, waker: Some(waker) },
            ),
            garbage: self.garbage,
        }
    }

    /// The state after slot `index` has been freed: the slot is emptied, its
    /// flag unset, and a marker for it becomes the newest.
    pub open spec fn unregister(self, index: int) -> Registry {
        Registry {
            slots: self.slots.update(index, Slot { pending: false, waker: None }),
            garbage: seq![(index + 1) as nat] + self.garbage,
        }
    }

    /// `index` is the highest slot whose flag is unset.
    pub open spec fn is_next_wake(self, index: int) -> bool {
        &&& 0 <= index < self.slots.len()
        &&& !self.slots[index].pending
        &&& forall|j: int| index < j < self.slots.len() ==> (#[trigger] self.slots[j]).pending
    }

    /// The slot to which the next delivery goes: the most recently allocated
    /// one whose flag is unset, if there is one.
    pub open spec fn next_wake(self) -> Option<int> {
        if exists|index: int| self.is_next_wake(index) {
            Some(choose|index: int| self.is_next_wake(index))
        } else {
            None
        }
    }

    /// The waker that the next delivery notifies, if it finds one.
    pub open spec fn next_waker(self) -> Option<Waker> {
        match self.next_wake() {
            Some(index) => self.slots[index].waker,
            None => None,
        }
    }

    /// The state after one delivery: the flag of the chosen slot is set, and
    /// nothing changes where no slot could be chosen.
    pub open spec fn wake_one(self) -> Registry {
        match self.next_wake() {
            Some(index) => Registry {
                slots: self.slots.update(
                    index,
                    Slot { pending: true, waker: self.slots[index].waker },
                ),
                garbage: self.garbage,
            },
            None => self,
        }
    }

    /// The newest set marker is the only place that `is_first_marker` holds of.
    pub proof fn lemma_first_marker(self, k: int)
        requires
            self.is_first_marker(k),
        ensures
            self.first_marker() == Some(k),
    {
        let c = choose|c: int| self.is_first_marker(c);
        assert(self.is_first_marker(c));
        if c < k {
            assert(self.garbage[c] == 0);
        } else if k < c {
            assert(self.garbage[k] == 0);
        }
    }

    /// Without a set marker there is no first one.
    pub proof fn lemma_no_marker(self)
        requires
            forall|j: int| 0 <= j < self.garbage.len() ==> #[trigger] self.garbage[j] == 0,
        ensures
            self.first_marker() is None,
    {
    }

    /// The highest slot with its flag unset is the only one that
    /// `is_next_wake` holds of.
    pub proof fn lemma_next_wake(self, index: int)
        requires
            self.is_next_wake(index),
        ensures
            self.next_wake() == Some(index),
    {
        let c = choose|c: int| self.is_next_wake(c);
        assert(self.is_next_wake(c));
        if c < index {
            assert(self.slots[index].pending);
        } else if index < c {
            assert(self.slots[c].pending);
        }
    }

    /// Where every flag is set, no slot is next.
    pub proof fn lemma_no_wake(self)
        requires
            forall|j: int| 0 <= j < self.slots.len() ==> (#[trigger] self.slots[j]).pending,
        ensures
            self.next_wake() is None,
    {
    }
}

} // verus!
