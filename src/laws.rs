use vstd::prelude::*;

use crate::state::{expiry_from, ScheduleError, SharedState};
use crate::task::{FrameId, WorkerTask};

verus! {

/// In a well-formed state every frame below the frame count is in exactly
/// one place: the pool, one task, or the frames retired by submission; and
/// no other frame is anywhere.
pub proof fn lemma_partition(s: &SharedState, f: FrameId)
    requires
        s.wf(),
    ensures
        f < s.frame_count <==> s.is_placed(f),
        s.in_pool(f) ==> !s.is_held(f) && !s.retired@.contains(f),
        s.is_held(f) ==> !s.in_pool(f) && !s.retired@.contains(f),
        s.retired@.contains(f) ==> !s.in_pool(f) && !s.is_held(f),
{
    if s.is_held(f) {
        let i = choose|i: int| s.held_by(i, f);
        assert(s.held_by(i, f));
    }
}

/// A frame held by a task is held by no other task and is not in the pool.
pub proof fn lemma_single_owner(s: &SharedState, i: int, f: FrameId)
    requires
        s.sound(),
        s.held_by(i, f),
    ensures
        !s.in_pool(f),
        forall|j: int| j != i ==> !s.held_by(j, f),
{
    assert forall|j: int| j != i implies !s.held_by(j, f) by {
        if s.held_by(j, f) {
            assert(s.held_by(i, f) && s.held_by(j, f));
        }
    }
}

/// A renewal never shortens a lease whose expiry was granted no later than
/// the renewal's clock reading, that is, while the clock does not run
/// backwards.
pub proof fn lemma_renewal_keeps_lease(old: &SharedState, new: &SharedState, w: Seq<char>, now: u64)
    requires
        old.has_worker(w),
        old.lease_of(w) <= expiry_from(now),
        SharedState::renewed(new, w, now),
    ensures
        new.lease_of(w) >= old.lease_of(w),
{
}

/// Two grants of one frame each against a pool of one frame: the first
/// succeeds, the second fails with `NoWorkAvailable`.
pub proof fn lemma_no_double_assignment(
    s0: &SharedState,
    s1: &SharedState,
    s2: &SharedState,
    r1: Result<WorkerTask, ScheduleError>,
    r2: Result<WorkerTask, ScheduleError>,
)
    requires
        s0.frames@.len() == 1,
        SharedState::grant_outcome(s0, s1, 1, r1),
        SharedState::grant_outcome(s1, s2, 1, r2),
    ensures
        r1 is Ok,
        r2 == Err::<WorkerTask, ScheduleError>(ScheduleError::NoWorkAvailable),
{
}

} // verus!
