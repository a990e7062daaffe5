//! What holds of every registry, whatever was done to it before.

use crate::model::Registry;
use core::task::Waker;
use vstd::prelude::*;

verus! {

impl Registry {
    /// The indices handed out when each of `wakers` is registered in turn,
    /// with nothing freed in between.
    pub open spec fn indices_of(self, wakers: Seq<Option<Waker>>) -> Seq<int>
        decreases wakers.len(),
    {
        if wakers.len() == 0 {
            Seq::empty()
        } else {
            seq![self.next_index()] + self.register(wakers[0]).indices_of(wakers.skip(1))
        }
    }

    /// The slots reached by `calls` deliveries in a row, in the order in
    /// which they are reached. The run ends early once no slot is left.
    pub open spec fn woken(self, calls: nat) -> Seq<int>
        decreases calls,
    {
        if calls == 0 {
            Seq::empty()
        } else {
            match self.next_wake() {
                Some(index) => seq![index] + self.wake_one().woken((calls - 1) as nat),
                None => Seq::empty(),
            }
        }
    }

    /// Slot `index` exists and no marker offers it for reuse.
    pub open spec fn is_taken(self, index: int) -> bool {
        &&& 0 <= index < self.slots.len()
        &&& !self.is_free(index)
    }
}

/// A registration keeps the state well formed and its markers distinct. The
/// slot it hands out exists, was not taken before and is taken afterwards,
/// and every slot that was taken before stays taken.
pub proof fn lemma_register_takes(state: Registry, waker: Option<Waker>)
    requires
        state.wf(),
        state.markers_distinct(),
    ensures
        state.register(waker).wf(),
        state.register(waker).markers_distinct(),
        !state.is_taken(state.next_index()),
        state.register(waker).is_taken(state.next_index()),
        forall|other: int| state.is_taken(other) ==> state.register(waker).is_taken(other),
{
    let after = state.register(waker);
    let index = state.next_index();
    match state.first_marker() {
        Some(k) => {
            assert(state.is_first_marker(k));
            assert(state.garbage[k] == index + 1);
            assert forall|j: int|
                0 <= j < after.garbage.len() && #[trigger] after.garbage[j] != 0 implies {
                &&& after.garbage[j] == state.garbage[j]
                &&& after.garbage[j] <= after.slots.len()
            } by {
                assert(j != k);
                assert(state.garbage[j] != 0);
            }
            assert forall|i: int, j: int|
                0 <= i < j < after.garbage.len() && #[trigger] after.garbage[i]
                    != 0 implies after.garbage[i] != #[trigger] after.garbage[j] by {
                assert(state.garbage[i] != 0);
                if j != k {
                    assert(state.garbage[i] != state.garbage[j]);
                }
            }
            assert forall|j: int| 0 <= j < after.garbage.len() implies #[trigger] after.garbage[j]
                != index + 1 by {
                if j != k {
                    assert(after.garbage[j] == state.garbage[j]);
                    if j < k {
                        assert(state.garbage[j] == 0);
                    } else {
                        assert(state.garbage[k] != state.garbage[j]);
                    }
                }
            }
        },
        None => {
            assert forall|j: int| 0 <= j < after.garbage.len() implies #[trigger] after.garbage[j]
                != index + 1 by {
                if state.garbage[j] != 0 {
                    assert(state.garbage[j] <= state.slots.len());
                }
            }
        },
    }
    assert forall|other: int| state.is_taken(other) implies after.is_taken(other) by {
        if after.is_free(other) {
            let j = choose|j: int|
                0 <= j < after.garbage.len() && #[trigger] after.garbage[j] == other + 1;
            assert(state.garbage[j] == other + 1);
        }
    }
}

/// A run of registrations never hands out a slot that was taken when the run
/// began.
proof fn lemma_run_avoids_taken(state: Registry, wakers: Seq<Option<Waker>>, taken: int)
    requires
        state.wf(),
        state.markers_distinct(),
        state.is_taken(taken),
    ensures
        forall|i: int|
            0 <= i < state.indices_of(wakers).len() ==> state.indices_of(wakers)[i] != taken,
    decreases wakers.len(),
{
    if wakers.len() > 0 {
        let after = state.register(wakers[0]);
        let rest = after.indices_of(wakers.skip(1));
        lemma_register_takes(state, wakers[0]);
        lemma_run_avoids_taken(after, wakers.skip(1), taken);
        assert forall|i: int| 0 <= i < state.indices_of(wakers).len() implies state.indices_of(
            wakers,
        )[i] != taken by {
            if i > 0 {
                assert(state.indices_of(wakers)[i] == rest[i - 1]);
            }
        }
    }
}

/// Index uniqueness: registrations that follow one another with nothing
/// freed in between are all given different indices, provided that no slot
/// was freed twice over before.
pub proof fn lemma_index_uniqueness(state: Registry, wakers: Seq<Option<Waker>>)
    requires
        state.wf(),
        state.markers_distinct(),
    ensures
        state.indices_of(wakers).len() == wakers.len(),
        forall|i: int, j: int|
            0 <= i < j < wakers.len() ==> state.indices_of(wakers)[i] != state.indices_of(
                wakers,
            )[j],
    decreases wakers.len(),
{
    if wakers.len() > 0 {
        let after = state.register(wakers[0]);
        let rest = after.indices_of(wakers.skip(1));
        lemma_register_takes(state, wakers[0]);
        lemma_index_uniqueness(after, wakers.skip(1));
        lemma_run_avoids_taken(after, wakers.skip(1), state.next_index());
        assert forall|i: int, j: int| 0 <= i < j < wakers.len() implies state.indices_of(
            wakers,
        )[i] != state.indices_of(wakers)[j] by {
            assert(state.indices_of(wakers)[j] == rest[j - 1]);
            if i > 0 {
                assert(state.indices_of(wakers)[i] == rest[i - 1]);
            }
        }
    }
}

/// Freeing a slot keeps the state well formed, and freeing one that is
/// taken keeps the markers distinct. Re-registration and delivery touch no
/// marker at all.
pub proof fn lemma_unregister_keeps_markers(state: Registry, index: int)
    requires
        state.wf(),
        0 <= index < state.size(),
    ensures
        state.unregister(index).wf(),
        state.markers_distinct() && state.is_taken(index) ==> state.unregister(
            index,
        ).markers_distinct(),
        state.unregister(index).is_free(index),
{
    let freed = state.unregister(index);
    assert forall|k: int|
        0 <= k < freed.garbage.len() && #[trigger] freed.garbage[k] != 0 implies freed.garbage[k]
        <= freed.slots.len() by {
        if k > 0 {
            assert(freed.garbage[k] == state.garbage[k - 1]);
        }
    }
    if state.markers_distinct() && state.is_taken(index) {
        assert forall|j: int, k: int|
            0 <= j < k < freed.garbage.len() && #[trigger] freed.garbage[j]
                != 0 implies freed.garbage[j] != #[trigger] freed.garbage[k] by {
            assert(freed.garbage[k] == state.garbage[k - 1]);
            if j > 0 {
                assert(freed.garbage[j] == state.garbage[j - 1]);
                assert(state.garbage[j - 1] != state.garbage[k - 1]);
            }
        }
    }
    assert(freed.garbage[0] == index + 1);
}

/// Reuse: a registration that directly follows the freeing of a slot is
/// given that slot's index.
pub proof fn lemma_reuse(state: Registry, index: int)
    requires
        0 <= index < state.size(),
    ensures
        state.unregister(index).next_index() == index,
{
    state.unregister(index).lemma_first_marker(0);
}

/// A delivery changes no waker and no marker, adds no slot, and unsets no
/// flag; it sets the flag of the slot it reaches.
pub proof fn lemma_wake_one_sets_flag(state: Registry)
    ensures
        state.wake_one().slots.len() == state.slots.len(),
        state.wake_one().garbage == state.garbage,
        forall|i: int|
            0 <= i < state.slots.len() ==> (#[trigger] state.wake_one().slots[i]).waker
                == state.slots[i].waker,
        forall|i: int|
            0 <= i < state.slots.len() && state.slots[i].pending
                ==> (#[trigger] state.wake_one().slots[i]).pending,
        match state.next_wake() {
            Some(index) => state.is_next_wake(index) && state.wake_one().slots[index].pending,
            None => state.wake_one() == state,
        },
{
}

/// A run of deliveries reaches no slot whose flag is set when the run begins.
proof fn lemma_run_skips_flagged(state: Registry, calls: nat, flagged: int)
    requires
        0 <= flagged < state.slots.len(),
        state.slots[flagged].pending,
    ensures
        forall|i: int| 0 <= i < state.woken(calls).len() ==> state.woken(calls)[i] != flagged,
    decreases calls,
{
    if calls > 0 && state.next_wake() is Some {
        let rest = state.wake_one().woken((calls - 1) as nat);
        lemma_wake_one_sets_flag(state);
        lemma_run_skips_flagged(state.wake_one(), (calls - 1) as nat, flagged);
        assert forall|i: int| 0 <= i < state.woken(calls).len() implies state.woken(calls)[i]
            != flagged by {
            if i > 0 {
                assert(state.woken(calls)[i] == rest[i - 1]);
            }
        }
    }
}

/// At most one wake: deliveries that follow one another reach each slot at
/// most once.
pub proof fn lemma_at_most_once(state: Registry, calls: nat)
    ensures
        forall|i: int, j: int|
            0 <= i < j < state.woken(calls).len() ==> state.woken(calls)[i] != state.woken(
                calls,
            )[j],
    decreases calls,
{
    if calls > 0 && state.next_wake() is Some {
        let index = state.next_wake().unwrap();
        let rest = state.wake_one().woken((calls - 1) as nat);
        lemma_wake_one_sets_flag(state);
        lemma_at_most_once(state.wake_one(), (calls - 1) as nat);
        lemma_run_skips_flagged(state.wake_one(), (calls - 1) as nat, index);
        assert forall|i: int, j: int| 0 <= i < j < state.woken(calls).len() implies state.woken(
            calls,
        )[i] != state.woken(calls)[j] by {
            assert(state.woken(calls)[j] == rest[j - 1]);
            if i > 0 {
                assert(state.woken(calls)[i] == rest[i - 1]);
            }
        }
    }
}

/// After a registration and a delivery that reaches the registered slot, no
/// further run of deliveries reaches that slot again.
pub proof fn lemma_no_second_wake(state: Registry, waker: Option<Waker>, calls: nat)
    requires
        state.register(waker).next_wake() == Some(state.next_index()),
    ensures
        ({
            let woken_once = state.register(waker).wake_one();
            forall|i: int|
                0 <= i < woken_once.woken(calls).len() ==> woken_once.woken(calls)[i]
                    != state.next_index()
        }),
{
    let registered = state.register(waker);
    lemma_wake_one_sets_flag(registered);
    lemma_run_skips_flagged(registered.wake_one(), calls, state.next_index());
}

/// Re-registration overwrites: where the slot handed out by a registration
/// is the next to be reached, a waker put into it afterwards is the one that
/// the next delivery notifies, and the delivery after that does not reach the
/// slot again.
pub proof fn lemma_reregister_overwrites(state: Registry, first: Option<Waker>, waker: Waker)
    requires
        state.register(first).next_wake() == Some(state.next_index()),
    ensures
        ({
            let index = state.next_index();
            let replaced = state.register(first).reregister(index, waker);
            &&& replaced.next_wake() == Some(index)
            &&& replaced.next_waker() == Some(waker)
            &&& replaced.wake_one().next_wake() != Some(index)
        }),
{
    let index = state.next_index();
    let registered = state.register(first);
    let replaced = registered.reregister(index, waker);
    lemma_wake_one_sets_flag(registered);
    assert(registered.is_next_wake(index));
    assert(replaced.is_next_wake(index));
    replaced.lemma_next_wake(index);
    lemma_wake_one_sets_flag(replaced);
    let again = replaced.wake_one();
    if again.next_wake() is Some {
        lemma_wake_one_sets_flag(again);
    }
}

} // verus!
