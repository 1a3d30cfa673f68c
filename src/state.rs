use std::sync::Arc;
use vstd::prelude::*;

use crate::decimal::{decimal_string, decimal_text, lemma_decimal_injective};
use crate::task::{position_of_frame, FrameId, WorkerId, WorkerTask};

verus! {

/// How long a grant or a renewal keeps a lease alive, in seconds.
pub const LEASE_SECONDS: u64 = 1200;

/// How often the expiry sweep runs, in seconds.
pub const SWEEP_INTERVAL_SECONDS: u64 = 5;

/// The latest clock reading, in seconds since the epoch, from which a lease
/// expiry can still be represented.
pub const LATEST_CLOCK: u64 = u64::MAX - LEASE_SECONDS;

/// The lease expiry granted at instant `now`.
pub open spec fn expiry_from(now: u64) -> int {
    now + LEASE_SECONDS
}

/// Whether a task's lease is still running at instant `now`.
pub open spec fn live_at(now: u64) -> spec_fn(WorkerTask) -> bool {
    |t: WorkerTask| !t.expired_at(now)
}

/// Why a scheduling operation did not go through.
#[derive(Debug, Clone, Copy, PartialEq, Eq, Structural)]
pub enum ScheduleError {
    /// Every frame is leased out or done; retry later.
    NoWorkAvailable,
    /// No worker identity was supplied.
    Unauthenticated,
    /// No frame was named and the worker does not hold exactly one.
    AmbiguousOrMissingFrame,
    /// No task exists for the worker.
    UnknownWorker,
    /// The frame is not among the worker's frames.
    FrameNotOwned,
    /// The submitted result could not be stored.
    PersistenceFailed,
}

/// What the expiry sweep should do after a tick.
#[derive(Debug, Clone, Copy, PartialEq, Eq, Structural)]
pub enum SweepOutcome {
    /// Keep sweeping.
    Continue,
    /// Every frame is done: run the finishing action once and stop sweeping.
    JobComplete,
}

/// The coordinator's scheduling state: the frame pool, the lease table and
/// the worker counter, with the job's fixed configuration.
pub struct SharedState {
    /// The job's input, handed verbatim to workers.
    pub source_file: Arc<Vec<u8>>,
    /// The frame pool: frames that no worker holds.
    pub frames: Vec<FrameId>,
    /// The number that the next registered worker receives.
    pub next_worker_id: u64,
    /// The lease table, at most one task per worker.
    pub pending_tasks: Vec<WorkerTask>,
    /// Where submitted results are stored.
    pub output_directory: String,
    /// Frames are the numbers below this count.
    pub frame_count: u64,
    /// Frames taken out of circulation by a submission.
    pub retired: Ghost<Set<FrameId>>,
}

impl SharedState {
    /// `f` is in the frame pool.
    pub open spec fn in_pool(&self, f: FrameId) -> bool {
        self.frames@.contains(f)
    }

    /// The task at position `i` of the lease table holds `f`.
    pub open spec fn held_by(&self, i: int, f: FrameId) -> bool {
        0 <= i < self.pending_tasks@.len() && self.pending_tasks@[i].frames@.contains(f)
    }

    /// Some task holds `f`.
    pub open spec fn is_held(&self, f: FrameId) -> bool {
        exists|i: int| self.held_by(i, f)
    }

    /// `f` is in the pool, held by a task, or retired by a submission.
    pub open spec fn is_placed(&self, f: FrameId) -> bool {
        self.in_pool(f) || self.is_held(f) || self.retired@.contains(f)
    }

    /// The lease table holds a task of worker `w`.
    pub open spec fn has_worker(&self, w: Seq<char>) -> bool {
        exists|i: int| 0 <= i < self.pending_tasks@.len() && #[trigger] self.pending_tasks@[i].worker_id@ == w
    }

    /// The position of the task of worker `w`, where there is one.
    pub open spec fn index_of(&self, w: Seq<char>) -> int {
        choose|i: int| 0 <= i < self.pending_tasks@.len() && #[trigger] self.pending_tasks@[i].worker_id@ == w
    }

    /// Worker identities are decimal texts of registered numbers.
    pub open spec fn registered(&self, w: Seq<char>) -> bool {
        exists|k: nat| 1 <= k < self.next_worker_id && w == #[trigger] decimal_text(k)
    }

    /// Frames that are below the frame count and placed nowhere.
    pub open spec fn loose(&self) -> Set<FrameId> {
        Set::new(|f: FrameId| f < self.frame_count && !self.is_placed(f))
    }

    /// The structural invariant: no frame is listed twice or owned twice, and
    /// each task belongs to a distinct registered worker.
    pub open spec fn sound(&self) -> bool {
        &&& 1 <= self.next_worker_id
        &&& self.frames@.no_duplicates()
        &&& forall|i: int| 0 <= i < self.pending_tasks@.len() ==> (#[trigger] self.pending_tasks@[i]).wf()
        &&& forall|i: int, j: int|
            0 <= i < self.pending_tasks@.len() && 0 <= j < self.pending_tasks@.len() && i != j
                ==> #[trigger] self.pending_tasks@[i].worker_id@ != #[trigger] self.pending_tasks@[j].worker_id@
        &&& forall|i: int| 0 <= i < self.pending_tasks@.len() ==> self.registered(#[trigger] self.pending_tasks@[i].worker_id@)
        &&& forall|f: FrameId| #[trigger] self.in_pool(f) ==> f < self.frame_count && !self.retired@.contains(f)
        &&& forall|i: int, f: FrameId| #[trigger] self.held_by(i, f)
            ==> f < self.frame_count && !self.in_pool(f) && !self.retired@.contains(f)
        &&& forall|i: int, j: int, f: FrameId| #[trigger] self.held_by(i, f) && #[trigger] self.held_by(j, f) ==> i == j
        &&& forall|f: FrameId| #[trigger] self.retired@.contains(f) ==> f < self.frame_count
    }

    /// The full invariant: sound, and every frame below the frame count is
    /// placed somewhere.
    pub open spec fn wf(&self) -> bool {
        &&& self.sound()
        &&& forall|f: FrameId| f < self.frame_count ==> #[trigger] self.is_placed(f)
    }

    /// The fields that no scheduling operation changes.
    pub open spec fn same_job(&self, other: &SharedState) -> bool {
        &&& self.source_file == other.source_file
        &&& self.output_directory == other.output_directory
        &&& self.frame_count == other.frame_count
    }

    proof fn lemma_same_tasks(a: &SharedState, b: &SharedState)
        requires
            a.pending_tasks@ == b.pending_tasks@,
        ensures
            forall|i: int, f: FrameId| #[trigger] a.held_by(i, f) == #[trigger] b.held_by(i, f),
            forall|f: FrameId| #[trigger] a.is_held(f) == #[trigger] b.is_held(f),
    {
        assert forall|f: FrameId| #[trigger] a.is_held(f) == #[trigger] b.is_held(f) by {
            if a.is_held(f) {
                let i = choose|i: int| a.held_by(i, f);
                assert(b.held_by(i, f));
            }
            if b.is_held(f) {
                let i = choose|i: int| b.held_by(i, f);
                assert(a.held_by(i, f));
            }
        }
    }

    /// The single outstanding frame of worker `w`, where it holds exactly one.
    pub open spec fn pending_frame(&self, w: Seq<char>) -> Option<FrameId> {
        if self.has_worker(w) && self.pending_tasks@[self.index_of(w)].frames@.len() == 1 {
            Some(self.pending_tasks@[self.index_of(w)].frames@[0])
        } else {
            None
        }
    }

    /// Whether some frame is still in the pool or held by a task.
    pub open spec fn work_remains(&self) -> bool {
        !(self.frames@.len() == 0 && forall|i: int| 0 <= i < self.pending_tasks@.len()
            ==> (#[trigger] self.pending_tasks@[i]).frames@.len() == 0)
    }

    proof fn lemma_index_of(&self, i: int)
        requires
            self.sound(),
            0 <= i < self.pending_tasks@.len(),
        ensures
            self.has_worker(self.pending_tasks@[i].worker_id@),
            self.index_of(self.pending_tasks@[i].worker_id@) == i,
    {
        let w = self.pending_tasks@[i].worker_id@;
        assert(self.has_worker(w));
        let j = self.index_of(w);
        assert(self.pending_tasks@[j].worker_id@ == w);
    }

    proof fn lemma_wf_loose(&self)
        requires
            self.sound(),
        ensures
            self.wf() <==> self.loose() == Set::<FrameId>::empty(),
    {
        if self.wf() {
            assert(self.loose() =~= Set::<FrameId>::empty());
        }
        if self.loose() == Set::<FrameId>::empty() {
            assert forall|f: FrameId| f < self.frame_count implies #[trigger] self.is_placed(f) by {
                assert(!self.loose().contains(f));
            }
        }
    }

    /// The outcome that a grant of `count` frames owes: success exactly when
    /// a frame was asked for and the pool held one, with as many frames
    /// moved out of the pool as were asked for or as it held.
    pub open spec fn grant_outcome(
        old: &SharedState,
        new: &SharedState,
        count: u32,
        r: Result<WorkerTask, ScheduleError>,
    ) -> bool {
        &&& (r is Ok <==> count > 0 && old.frames@.len() > 0)
        &&& r is Err ==> r == Err::<WorkerTask, ScheduleError>(ScheduleError::NoWorkAvailable)
            && new.frames@ == old.frames@
        &&& r matches Ok(t) ==> {
            &&& t.frames@.len() == if count < old.frames@.len() { count as int } else { old.frames@.len() as int }
            &&& new.frames@.len() + t.frames@.len() == old.frames@.len()
        }
    }

    /// The lease expiry of worker `w`'s task.
    pub open spec fn lease_of(&self, w: Seq<char>) -> u64 {
        self.pending_tasks@[self.index_of(w)].lease_time
    }

    /// `new` holds a task for `w` whose lease runs until `now` plus the
    /// lease duration.
    pub open spec fn renewed(new: &SharedState, w: Seq<char>, now: u64) -> bool {
        &&& new.has_worker(w)
        &&& new.lease_of(w) == expiry_from(now)
    }

    /// A state that differs from `s0` only in the lease expiry of the task at
    /// position `i` is as sound as `s0`, with the same frames placed.
    proof fn lemma_relet(s0: &SharedState, s1: &SharedState, i: int)
        requires
            s0.sound(),
            0 <= i < s0.pending_tasks@.len(),
            s1.same_job(s0),
            s1.frames@ == s0.frames@,
            s1.next_worker_id == s0.next_worker_id,
            s1.retired@ == s0.retired@,
            s1.pending_tasks@.len() == s0.pending_tasks@.len(),
            forall|j: int| 0 <= j < s0.pending_tasks@.len() && j != i ==> s1.pending_tasks@[j] == s0.pending_tasks@[j],
            s1.pending_tasks@[i].worker_id@ == s0.pending_tasks@[i].worker_id@,
            s1.pending_tasks@[i].frames@ == s0.pending_tasks@[i].frames@,
        ensures
            s1.sound(),
            s1.loose() == s0.loose(),
            forall|f: FrameId| #[trigger] s1.is_placed(f) == s0.is_placed(f),
            forall|w: Seq<char>| #[trigger] s1.has_worker(w) == s0.has_worker(w),
            forall|w: Seq<char>| s0.has_worker(w) ==> #[trigger] s1.index_of(w) == s0.index_of(w),
    {
        assert forall|j: int, f: FrameId| #[trigger] s1.held_by(j, f) == s0.held_by(j, f) by {}
        assert forall|j: int| 0 <= j < s1.pending_tasks@.len() implies (#[trigger] s1.pending_tasks@[j]).wf() by {
            assert(s0.pending_tasks@[j].wf());
        }
        assert forall|j: int| 0 <= j < s1.pending_tasks@.len() implies s1.registered(#[trigger] s1.pending_tasks@[j].worker_id@) by {
            assert(s0.registered(s0.pending_tasks@[j].worker_id@));
        }
        assert forall|a: int, b: int|
            0 <= a < s1.pending_tasks@.len() && 0 <= b < s1.pending_tasks@.len() && a != b
            implies #[trigger] s1.pending_tasks@[a].worker_id@ != #[trigger] s1.pending_tasks@[b].worker_id@ by {
            assert(s0.pending_tasks@[a].worker_id@ != s0.pending_tasks@[b].worker_id@);
        }
        assert forall|f: FrameId| #[trigger] s1.in_pool(f) implies f < s1.frame_count && !s1.retired@.contains(f) by {
            assert(s0.in_pool(f));
        }
        assert forall|j: int, f: FrameId| #[trigger] s1.held_by(j, f)
            implies f < s1.frame_count && !s1.in_pool(f) && !s1.retired@.contains(f) by {
            assert(s0.held_by(j, f));
        }
        assert forall|a: int, b: int, f: FrameId| #[trigger] s1.held_by(a, f) && #[trigger] s1.held_by(b, f) implies a == b by {
            assert(s0.held_by(a, f));
            assert(s0.held_by(b, f));
        }
        assert forall|f: FrameId| #[trigger] s1.is_placed(f) == s0.is_placed(f) by {
            if s1.is_held(f) {
                let j = choose|j: int| s1.held_by(j, f);
                assert(s0.held_by(j, f));
            }
            if s0.is_held(f) {
                let j = choose|j: int| s0.held_by(j, f);
                assert(s1.held_by(j, f));
            }
        }
        assert(s1.loose() =~= s0.loose());
        assert forall|w: Seq<char>| #[trigger] s1.has_worker(w) == s0.has_worker(w) by {
            if s1.has_worker(w) {
                let j = choose|j: int| 0 <= j < s1.pending_tasks@.len() && #[trigger] s1.pending_tasks@[j].worker_id@ == w;
                assert(s0.pending_tasks@[j].worker_id@ == w);
            }
            if s0.has_worker(w) {
                let j = choose|j: int| 0 <= j < s0.pending_tasks@.len() && #[trigger] s0.pending_tasks@[j].worker_id@ == w;
                assert(s1.pending_tasks@[j].worker_id@ == w);
            }
        }
        assert forall|w: Seq<char>| s0.has_worker(w) implies #[trigger] s1.index_of(w) == s0.index_of(w) by {
            let j = s0.index_of(w);
            s0.lemma_index_of(j);
            assert(s1.pending_tasks@[j].worker_id@ == w);
            s1.lemma_index_of(j);
        }
    }

    /// A fresh state: every frame below `frame_count` is in the pool, no
    /// worker is registered.
    pub fn new(source_file: Arc<Vec<u8>>, output_directory: String, frame_count: u64) -> (r: Self)
        ensures
            r.wf(),
            r.source_file == source_file,
            r.output_directory == output_directory,
            r.frame_count == frame_count,
            r.next_worker_id == 1,
            r.pending_tasks@.len() == 0,
            r.retired@.is_empty(),
            r.frames@.len() == frame_count,
            forall|x: int| 0 <= x < frame_count ==> r.frames@[x] == x,
            forall|f: FrameId| r.in_pool(f) <==> f < frame_count,
    {
        let mut frames: Vec<FrameId> = Vec::new();
        let mut f: u64 = 0;
        while f < frame_count
            invariant
                f <= frame_count,
                frames@.len() == f,
                forall|x: int| 0 <= x < f ==> frames@[x] == x,
            decreases frame_count - f,
        {
            frames.push(f);
            f += 1;
        }
        let r = SharedState {
            source_file,
            frames,
            next_worker_id: 1,
            pending_tasks: Vec::new(),
            output_directory,
            frame_count,
            retired: Ghost(Set::empty()),
        };
        assert forall|g: FrameId| r.in_pool(g) <==> g < frame_count by {
            if g < frame_count {
                assert(r.frames@[g as int] == g);
            }
        }
        r
    }

    /// Removes a frame from the pool and returns it: the last one listed, or
    /// nothing if the pool is empty.
    pub fn take_frame_id(&mut self) -> (r: Option<FrameId>)
        requires
            old(self).sound(),
        ensures
            final(self).sound(),
            final(self).same_job(old(self)),
            final(self).pending_tasks@ == old(self).pending_tasks@,
            final(self).next_worker_id == old(self).next_worker_id,
            final(self).retired@ == old(self).retired@,
            old(self).frames@.len() == 0 ==> r is None && final(self).frames@ == old(self).frames@,
            old(self).frames@.len() > 0 ==> r == Some(old(self).frames@.last())
                && final(self).frames@ == old(self).frames@.drop_last(),
            forall|f: FrameId| final(self).in_pool(f) <==> old(self).in_pool(f) && r != Some(f),
            final(self).loose() == match r {
                Some(f) => old(self).loose().insert(f),
                None => old(self).loose(),
            },
    {
        let ghost s0 = *self;
        let r = self.frames.pop();
        proof {
            Self::lemma_same_tasks(self, &s0);
            if s0.frames@.len() > 0 {
                let last = s0.frames@.last();
                assert(self.frames@ =~= s0.frames@.drop_last());
                assert forall|f: FrameId| self.in_pool(f) <==> s0.in_pool(f) && r != Some(f) by {
                    if self.in_pool(f) {
                        let x = choose|x: int| 0 <= x < self.frames@.len() && self.frames@[x] == f;
                        assert(s0.frames@[x] == f);
                        assert(s0.frames@[s0.frames@.len() - 1] == last);
                    }
                    if s0.in_pool(f) && f != last {
                        let x = choose|x: int| 0 <= x < s0.frames@.len() && s0.frames@[x] == f;
                        assert(self.frames@[x] == f);
                    }
                }
                assert(s0.in_pool(last));
                assert forall|x: int, y: int| 0 <= x < self.frames@.len() && 0 <= y < self.frames@.len() && x != y
                    implies self.frames@[x] != self.frames@[y] by {
                    assert(s0.frames@[x] == self.frames@[x]);
                    assert(s0.frames@[y] == self.frames@[y]);
                }
                assert forall|f: FrameId| #[trigger] self.in_pool(f) implies f < self.frame_count && !self.retired@.contains(f) by {
                    assert(s0.in_pool(f));
                }
                assert forall|i: int, f: FrameId| #[trigger] self.held_by(i, f)
                    implies f < self.frame_count && !self.in_pool(f) && !self.retired@.contains(f) by {
                    assert(s0.held_by(i, f));
                }
                assert forall|i: int, j: int, f: FrameId| #[trigger] self.held_by(i, f) && #[trigger] self.held_by(j, f) implies i == j by {
                    assert(s0.held_by(i, f));
                    assert(s0.held_by(j, f));
                }
                assert forall|f: FrameId| #[trigger] self.loose().contains(f) <==> s0.loose().insert(last).contains(f) by {
                    if f == last {
                        if s0.is_held(f) {
                            let i = choose|i: int| s0.held_by(i, f);
                            assert(s0.held_by(i, f));
                        }
                    }
                }
                assert(self.loose() =~= s0.loose().insert(last));
            } else {
                assert(self.frames@ =~= s0.frames@);
                assert forall|f: FrameId| #[trigger] self.in_pool(f) implies f < self.frame_count && !self.retired@.contains(f) by {
                    assert(s0.in_pool(f));
                }
                assert forall|i: int, f: FrameId| #[trigger] self.held_by(i, f)
                    implies f < self.frame_count && !self.in_pool(f) && !self.retired@.contains(f) by {
                    assert(s0.held_by(i, f));
                }
                assert forall|i: int, j: int, f: FrameId| #[trigger] self.held_by(i, f) && #[trigger] self.held_by(j, f) implies i == j by {
                    assert(s0.held_by(i, f));
                    assert(s0.held_by(j, f));
                }
                assert(self.loose() =~= s0.loose());
            }
        }
        r
    }

    /// Registers a new worker and returns its identity.
    pub fn create_worker(&mut self) -> (r: WorkerId)
        requires
            old(self).sound(),
            old(self).next_worker_id < u64::MAX,
        ensures
            final(self).sound(),
            final(self).same_job(old(self)),
            final(self).frames@ == old(self).frames@,
            final(self).pending_tasks@ == old(self).pending_tasks@,
            final(self).retired@ == old(self).retired@,
            final(self).next_worker_id == old(self).next_worker_id + 1,
            r@ == decimal_text(old(self).next_worker_id as nat),
            !old(self).has_worker(r@),
            final(self).registered(r@),
            final(self).loose() == old(self).loose(),
    {
        let ghost s0 = *self;
        let r = decimal_string(self.next_worker_id);
        self.next_worker_id = self.next_worker_id + 1;
        proof {
            Self::lemma_same_tasks(self, &s0);
            assert forall|i: int| 0 <= i < self.pending_tasks@.len()
                implies self.registered(#[trigger] self.pending_tasks@[i].worker_id@) by {
                let w = self.pending_tasks@[i].worker_id@;
                assert(s0.registered(w));
                let k = choose|k: nat| 1 <= k < s0.next_worker_id && w == #[trigger] decimal_text(k);
                assert(w == decimal_text(k));
            }
            if s0.has_worker(r@) {
                let i = choose|i: int| 0 <= i < s0.pending_tasks@.len() && #[trigger] s0.pending_tasks@[i].worker_id@ == r@;
                let w = s0.pending_tasks@[i].worker_id@;
                assert(s0.registered(w));
                let k = choose|k: nat| 1 <= k < s0.next_worker_id && w == #[trigger] decimal_text(k);
                lemma_decimal_injective(k, s0.next_worker_id as nat);
            }
            assert(r@ == decimal_text(s0.next_worker_id as nat));
            assert(self.registered(r@));
            assert forall|f: FrameId| #[trigger] self.in_pool(f) implies f < self.frame_count && !self.retired@.contains(f) by {
                assert(s0.in_pool(f));
            }
            assert forall|i: int, f: FrameId| #[trigger] self.held_by(i, f)
                implies f < self.frame_count && !self.in_pool(f) && !self.retired@.contains(f) by {
                assert(s0.held_by(i, f));
            }
            assert forall|i: int, j: int, f: FrameId| #[trigger] self.held_by(i, f) && #[trigger] self.held_by(j, f) implies i == j by {
                assert(s0.held_by(i, f));
                assert(s0.held_by(j, f));
            }
            assert(self.loose() =~= s0.loose());
        }
        r
    }

    /// The position of the task of `worker_id`, if there is one.
    pub fn find_task(&self, worker_id: &WorkerId) -> (r: Option<usize>)
        requires
            self.sound(),
        ensures
            match r {
                Some(i) => self.has_worker(worker_id@) && i == self.index_of(worker_id@)
                    && i < self.pending_tasks@.len(),
                None => !self.has_worker(worker_id@),
            },
    {
        let mut i: usize = 0;
        while i < self.pending_tasks.len()
            invariant
                self.sound(),
                i <= self.pending_tasks@.len(),
                forall|x: int| 0 <= x < i ==> #[trigger] self.pending_tasks@[x].worker_id@ != worker_id@,
            decreases self.pending_tasks@.len() - i,
        {
            if self.pending_tasks[i].worker_id == *worker_id {
                proof {
                    self.lemma_index_of(i as int);
                }
                return Some(i);
            }
            i += 1;
        }
        None
    }

    /// The single outstanding frame of `worker_id`, if it has a task with
    /// exactly one frame.
    pub fn get_pending_frame_id(&self, worker_id: WorkerId) -> (r: Option<FrameId>)
        requires
            self.sound(),
        ensures
            r == self.pending_frame(worker_id@),
    {
        match self.find_task(&worker_id) {
            Some(i) => {
                if self.pending_tasks[i].frames.len() == 1 {
                    Some(self.pending_tasks[i].frames[0])
                } else {
                    None
                }
            }
            None => None,
        }
    }

    /// Whether the job is unfinished: a frame is in the pool or some task
    /// still holds a frame.
    pub fn has_frames(&self) -> (r: bool)
        ensures
            r == self.work_remains(),
    {
        if self.frames.len() > 0 {
            return true;
        }
        let mut i: usize = 0;
        while i < self.pending_tasks.len()
            invariant
                self.frames@.len() == 0,
                i <= self.pending_tasks@.len(),
                forall|x: int| 0 <= x < i ==> (#[trigger] self.pending_tasks@[x]).frames@.len() == 0,
            decreases self.pending_tasks@.len() - i,
        {
            if self.pending_tasks[i].frames.len() > 0 {
                return true;
            }
            i += 1;
        }
        false
    }

    /// Grants the frames `frame_ids`, which no one holds, to `worker_id`:
    /// merged into its task if it has one, else in a new task. Either way the
    /// lease runs until `now` plus the lease duration. Returns the worker's
    /// task as it now stands.
    pub fn add_task(&mut self, worker_id: WorkerId, frame_ids: &[FrameId], now: u64) -> (r: WorkerTask)
        requires
            old(self).sound(),
            now <= LATEST_CLOCK,
            frame_ids@.no_duplicates(),
            forall|x: int| 0 <= x < frame_ids@.len() ==> old(self).loose().contains(#[trigger] frame_ids@[x]),
            old(self).has_worker(worker_id@) || old(self).registered(worker_id@),
        ensures
            final(self).sound(),
            final(self).same_job(old(self)),
            final(self).frames@ == old(self).frames@,
            final(self).next_worker_id == old(self).next_worker_id,
            final(self).retired@ == old(self).retired@,
            final(self).loose() == old(self).loose().difference(frame_ids@.to_set()),
            r.worker_id@ == worker_id@,
            r.lease_time == expiry_from(now),
            final(self).has_worker(worker_id@),
            ({
                let i = final(self).index_of(worker_id@);
                &&& final(self).pending_tasks@[i].worker_id@ == worker_id@
                &&& final(self).pending_tasks@[i].lease_time == r.lease_time
                &&& final(self).pending_tasks@[i].frames@ == r.frames@
            }),
            old(self).has_worker(worker_id@) ==> {
                let i = old(self).index_of(worker_id@);
                &&& final(self).index_of(worker_id@) == i
                &&& final(self).pending_tasks@.len() == old(self).pending_tasks@.len()
                &&& forall|j: int| 0 <= j < old(self).pending_tasks@.len() && j != i
                    ==> final(self).pending_tasks@[j] == old(self).pending_tasks@[j]
                &&& r.frames@ == old(self).pending_tasks@[i].frames@ + frame_ids@
            },
            !old(self).has_worker(worker_id@) ==> {
                &&& final(self).index_of(worker_id@) == old(self).pending_tasks@.len()
                &&& final(self).pending_tasks@.len() == old(self).pending_tasks@.len() + 1
                &&& forall|j: int| 0 <= j < old(self).pending_tasks@.len()
                    ==> final(self).pending_tasks@[j] == old(self).pending_tasks@[j]
                &&& r.frames@ == frame_ids@
            },
    {
        let ghost s0 = *self;
        let lease_time = now + LEASE_SECONDS;
        let found = self.find_task(&worker_id);
        let ghost i: int;
        let ghost base: Seq<FrameId>;
        let r = match found {
            Some(idx) => {
                proof {
                    i = idx as int;
                    base = s0.pending_tasks@[i].frames@;
                }
                let mut merged = crate::task::copy_frames(&self.pending_tasks[idx].frames);
                let mut k: usize = 0;
                while k < frame_ids.len()
                    invariant
                        k <= frame_ids@.len(),
                        merged@ == base + frame_ids@.take(k as int),
                    decreases frame_ids@.len() - k,
                {
                    merged.push(frame_ids[k]);
                    k += 1;
                    assert(merged@ =~= base + frame_ids@.take(k as int));
                }
                assert(frame_ids@.take(frame_ids@.len() as int) =~= frame_ids@);
                let mut task = self.pending_tasks.remove(idx);
                task.frames = merged;
                task.lease_time = lease_time;
                let r = task.snapshot();
                self.pending_tasks.insert(idx, task);
                r
            }
            None => {
                proof {
                    i = s0.pending_tasks@.len() as int;
                    base = Seq::empty();
                }
                let task = WorkerTask::new(worker_id, frame_ids, lease_time);
                let r = task.snapshot();
                self.pending_tasks.push(task);
                r
            }
        };
        proof {
            let ids = frame_ids@;
            assert(base + ids =~= r.frames@);
            assert(self.pending_tasks@[i].frames@ == r.frames@);
            assert(forall|j: int| 0 <= j < self.pending_tasks@.len() && j != i
                ==> self.pending_tasks@[j] == s0.pending_tasks@[j]);
            assert(self.frames@ == s0.frames@);
            // the granted frames were loose
            assert forall|x: int| 0 <= x < ids.len() implies {
                &&& ids[x] < self.frame_count
                &&& !s0.in_pool(ids[x])
                &&& !s0.retired@.contains(ids[x])
                &&& forall|j: int| !s0.held_by(j, ids[x])
            } by {
                assert(s0.loose().contains(ids[x]));
                assert forall|j: int| !s0.held_by(j, ids[x]) by {
                    if s0.held_by(j, ids[x]) {
                        assert(s0.is_held(ids[x]));
                    }
                }
            }
            // what task i holds
            assert forall|f: FrameId| #[trigger] self.held_by(i, f) <==> s0.held_by(i, f) || ids.contains(f) by {
                let t = self.pending_tasks@[i].frames@;
                if t.contains(f) {
                    let x = choose|x: int| 0 <= x < t.len() && t[x] == f;
                    if x < base.len() {
                        assert(base[x] == f);
                    } else {
                        assert(ids[x - base.len()] == f);
                    }
                }
                if s0.held_by(i, f) {
                    let x = choose|x: int| 0 <= x < base.len() && base[x] == f;
                    assert(t[x] == f);
                }
                if ids.contains(f) {
                    let x = choose|x: int| 0 <= x < ids.len() && ids[x] == f;
                    assert(t[base.len() + x] == f);
                }
            }
            assert forall|j: int, f: FrameId| j != i implies (#[trigger] self.held_by(j, f) <==> s0.held_by(j, f)) by {}
            // sound
            assert(self.pending_tasks@[i].wf()) by {
                let t = self.pending_tasks@[i].frames@;
                assert forall|x: int, y: int| 0 <= x < t.len() && 0 <= y < t.len() && x != y implies t[x] != t[y] by {
                    if x < base.len() && y >= base.len() {
                        assert(s0.held_by(i, t[x]));
                        assert(t[y] == ids[y - base.len()]);
                    } else if y < base.len() && x >= base.len() {
                        assert(s0.held_by(i, t[y]));
                        assert(t[x] == ids[x - base.len()]);
                    } else if x < base.len() && y < base.len() {
                        assert(s0.pending_tasks@[i].wf());
                        assert(base[x] == t[x] && base[y] == t[y]);
                    } else {
                        assert(t[x] == ids[x - base.len()] && t[y] == ids[y - base.len()]);
                    }
                }
            }
            assert forall|j: int| 0 <= j < self.pending_tasks@.len() implies (#[trigger] self.pending_tasks@[j]).wf() by {
                if j != i {
                    assert(s0.pending_tasks@[j].wf());
                }
            }
            assert forall|j: int| 0 <= j < self.pending_tasks@.len() implies self.registered(#[trigger] self.pending_tasks@[j].worker_id@) by {
                if j != i {
                    assert(s0.registered(s0.pending_tasks@[j].worker_id@));
                } else if found is Some {
                    assert(s0.registered(s0.pending_tasks@[j].worker_id@));
                }
            }
            assert forall|a: int, b: int|
                0 <= a < self.pending_tasks@.len() && 0 <= b < self.pending_tasks@.len() && a != b
                implies #[trigger] self.pending_tasks@[a].worker_id@ != #[trigger] self.pending_tasks@[b].worker_id@ by {
                if a != i && b != i {
                    assert(s0.pending_tasks@[a].worker_id@ != s0.pending_tasks@[b].worker_id@);
                } else if found is Some {
                    assert(s0.pending_tasks@[a].worker_id@ != s0.pending_tasks@[b].worker_id@);
                } else {
                    let c = if a == i { b } else { a };
                    assert(s0.pending_tasks@[c].worker_id@ != worker_id@);
                }
            }
            assert forall|f: FrameId| #[trigger] self.in_pool(f) implies f < self.frame_count && !self.retired@.contains(f) by {
                assert(s0.in_pool(f));
            }
            assert forall|j: int, f: FrameId| #[trigger] self.held_by(j, f)
                implies f < self.frame_count && !self.in_pool(f) && !self.retired@.contains(f) by {
                if j != i || s0.held_by(i, f) {
                    assert(s0.held_by(j, f));
                } else {
                    let x = choose|x: int| 0 <= x < ids.len() && ids[x] == f;
                    assert(ids[x] == f);
                }
            }
            assert forall|a: int, b: int, f: FrameId| #[trigger] self.held_by(a, f) && #[trigger] self.held_by(b, f) implies a == b by {
                if ids.contains(f) {
                    let x = choose|x: int| 0 <= x < ids.len() && ids[x] == f;
                    assert(!s0.held_by(a, ids[x]));
                    assert(!s0.held_by(b, ids[x]));
                } else {
                    assert(s0.held_by(a, f));
                    assert(s0.held_by(b, f));
                }
            }
            assert(self.sound());
            // loose
            assert forall|f: FrameId| #[trigger] self.is_held(f) <==> s0.is_held(f) || ids.contains(f) by {
                if self.is_held(f) {
                    let j = choose|j: int| self.held_by(j, f);
                    if !ids.contains(f) {
                        assert(s0.held_by(j, f));
                    }
                }
                if s0.is_held(f) {
                    let j = choose|j: int| s0.held_by(j, f);
                    assert(self.held_by(j, f));
                }
                if ids.contains(f) {
                    assert(self.held_by(i, f));
                }
            }
            assert(self.loose() =~= s0.loose().difference(ids.to_set()));
            // the worker's position
            assert(self.pending_tasks@[i].worker_id@ == worker_id@);
            self.lemma_index_of(i);
            if found is Some {
                s0.lemma_index_of(i);
            }
        }
        r
    }

    /// Grants up to `requested_count` frames from the pool to a newly
    /// registered worker, in a new task leased until `now` plus the lease
    /// duration. Fails with `NoWorkAvailable`, changing nothing, when no
    /// frame could be drawn.
    pub fn request_task(&mut self, requested_count: u32, now: u64) -> (r: Result<WorkerTask, ScheduleError>)
        requires
            old(self).wf(),
            now <= LATEST_CLOCK,
            old(self).next_worker_id < u64::MAX,
        ensures
            final(self).wf(),
            final(self).same_job(old(self)),
            final(self).retired@ == old(self).retired@,
            Self::grant_outcome(old(self), final(self), requested_count, r),
            r is Err ==> final(self).pending_tasks@ == old(self).pending_tasks@
                && final(self).next_worker_id == old(self).next_worker_id,
            r matches Ok(t) ==> {
                let n0 = old(self).pending_tasks@.len() as int;
                let pool0 = old(self).frames@.len() as int;
                &&& t.worker_id@ == decimal_text(old(self).next_worker_id as nat)
                &&& t.lease_time == expiry_from(now)
                &&& forall|x: int| 0 <= x < t.frames@.len() ==> t.frames@[x] == old(self).frames@[pool0 - 1 - x]
                &&& final(self).frames@ == old(self).frames@.take(pool0 - t.frames@.len())
                &&& final(self).next_worker_id == old(self).next_worker_id + 1
                &&& final(self).pending_tasks@.len() == n0 + 1
                &&& forall|j: int| 0 <= j < n0 ==> final(self).pending_tasks@[j] == old(self).pending_tasks@[j]
                &&& final(self).pending_tasks@[n0].worker_id@ == t.worker_id@
                &&& final(self).pending_tasks@[n0].lease_time == t.lease_time
                &&& final(self).pending_tasks@[n0].frames@ == t.frames@
            },
    {
        let ghost s0 = *self;
        proof {
            s0.lemma_wf_loose();
        }
        let frame_ids = self.take_frames(requested_count);
        if frame_ids.len() == 0 {
            proof {
                assert(self.frames@ =~= s0.frames@);
                assert(frame_ids@.to_set() =~= Set::<FrameId>::empty());
                assert(self.loose() =~= s0.loose());
                self.lemma_wf_loose();
            }
            return Err(ScheduleError::NoWorkAvailable);
        }
        let ghost s1 = *self;
        let worker_id = self.create_worker();
        assert forall|x: int| 0 <= x < frame_ids@.len() implies self.loose().contains(#[trigger] frame_ids@[x]) by {
            assert(frame_ids@.to_set().contains(frame_ids@[x]));
        }
        let task = self.add_task(worker_id, frame_ids.as_slice(), now);
        proof {
            assert forall|f: FrameId| !(#[trigger] frame_ids@.to_set().contains(f) && s0.loose().contains(f)) by {
                if frame_ids@.contains(f) {
                    assert(s0.in_pool(f));
                }
            }
            assert(self.loose() =~= s0.loose());
            self.lemma_wf_loose();
            assert(!s1.has_worker(task.worker_id@));
        }
        Ok(task)
    }

    /// Records the submission of a frame by `worker_id`. The frame is
    /// `frame_id_hint` where given, else the worker's single outstanding
    /// frame. On success the frame leaves the worker's task and circulation,
    /// and is returned so that its result can be stored.
    pub fn submit_frame(&mut self, worker_id: Option<WorkerId>, frame_id_hint: Option<FrameId>) -> (r: Result<FrameId, ScheduleError>)
        requires
            old(self).wf(),
        ensures
            final(self).wf(),
            final(self).same_job(old(self)),
            final(self).frames@ == old(self).frames@,
            final(self).next_worker_id == old(self).next_worker_id,
            r is Err ==> final(self).pending_tasks@ == old(self).pending_tasks@
                && final(self).retired@ == old(self).retired@,
            worker_id is None ==> r == Err::<FrameId, ScheduleError>(ScheduleError::Unauthenticated),
            worker_id matches Some(w) ==> {
                let resolved = match frame_id_hint {
                    Some(f) => Some(f),
                    None => old(self).pending_frame(w@),
                };
                let i = old(self).index_of(w@);
                match resolved {
                    None => r == Err::<FrameId, ScheduleError>(ScheduleError::AmbiguousOrMissingFrame),
                    Some(f) => if !old(self).has_worker(w@) {
                        r == Err::<FrameId, ScheduleError>(ScheduleError::UnknownWorker)
                    } else if !old(self).pending_tasks@[i].frames@.contains(f) {
                        r == Err::<FrameId, ScheduleError>(ScheduleError::FrameNotOwned)
                    } else {
                        &&& r == Ok::<FrameId, ScheduleError>(f)
                        &&& final(self).retired@ == old(self).retired@.insert(f)
                        &&& final(self).pending_tasks@.len() == old(self).pending_tasks@.len()
                        &&& forall|j: int| 0 <= j < old(self).pending_tasks@.len() && j != i
                            ==> final(self).pending_tasks@[j] == old(self).pending_tasks@[j]
                        &&& final(self).pending_tasks@[i].worker_id@ == w@
                        &&& final(self).pending_tasks@[i].lease_time == old(self).pending_tasks@[i].lease_time
                        &&& final(self).pending_tasks@[i].frame_set() == old(self).pending_tasks@[i].frame_set().remove(f)
                    },
                }
            },
    {
        let worker_id = match worker_id {
            Some(w) => w,
            None => return Err(ScheduleError::Unauthenticated),
        };
        let frame_id = match frame_id_hint {
            Some(f) => f,
            None => match self.get_pending_frame_id(worker_id.clone()) {
                Some(f) => f,
                None => return Err(ScheduleError::AmbiguousOrMissingFrame),
            },
        };
        let idx = match self.find_task(&worker_id) {
            Some(i) => i,
            None => return Err(ScheduleError::UnknownWorker),
        };
        let k = match position_of_frame(&self.pending_tasks[idx].frames, frame_id) {
            Some(k) => k,
            None => return Err(ScheduleError::FrameNotOwned),
        };
        let ghost s0 = *self;
        let mut task = self.pending_tasks.remove(idx);
        task.frames.remove(k);
        self.pending_tasks.insert(idx, task);
        self.retired = Ghost(self.retired@.insert(frame_id));
        proof {
            let i = idx as int;
            let f = frame_id;
            let base = s0.pending_tasks@[i].frames@;
            let t = self.pending_tasks@[i].frames@;
            assert(t =~= base.remove(k as int));
            assert(forall|j: int| 0 <= j < self.pending_tasks@.len() && j != i
                ==> self.pending_tasks@[j] == s0.pending_tasks@[j]);
            assert(s0.pending_tasks@[i].wf());
            assert forall|g: FrameId| #[trigger] self.held_by(i, g) <==> s0.held_by(i, g) && g != f by {
                if t.contains(g) {
                    let x = choose|x: int| 0 <= x < t.len() && t[x] == g;
                    if x < k {
                        assert(base[x] == g);
                    } else {
                        assert(base[x + 1] == g);
                    }
                }
                if s0.held_by(i, g) && g != f {
                    let x = choose|x: int| 0 <= x < base.len() && base[x] == g;
                    if x < k {
                        assert(t[x] == g);
                    } else {
                        assert(x != k);
                        assert(t[x - 1] == g);
                    }
                }
            }
            assert(s0.held_by(i, f));
            assert forall|j: int, g: FrameId| j != i implies (#[trigger] self.held_by(j, g) <==> s0.held_by(j, g)) by {}
            assert(self.pending_tasks@[i].wf()) by {
                assert forall|x: int, y: int| 0 <= x < t.len() && 0 <= y < t.len() && x != y implies t[x] != t[y] by {
                    let x1 = if x < k { x } else { x + 1 };
                    let y1 = if y < k { y } else { y + 1 };
                    assert(t[x] == base[x1] && t[y] == base[y1]);
                }
            }
            assert forall|j: int| 0 <= j < self.pending_tasks@.len() implies (#[trigger] self.pending_tasks@[j]).wf() by {
                if j != i {
                    assert(s0.pending_tasks@[j].wf());
                }
            }
            assert forall|j: int| 0 <= j < self.pending_tasks@.len() implies self.registered(#[trigger] self.pending_tasks@[j].worker_id@) by {
                assert(s0.registered(s0.pending_tasks@[j].worker_id@));
            }
            assert forall|a: int, b: int|
                0 <= a < self.pending_tasks@.len() && 0 <= b < self.pending_tasks@.len() && a != b
                implies #[trigger] self.pending_tasks@[a].worker_id@ != #[trigger] self.pending_tasks@[b].worker_id@ by {
                assert(s0.pending_tasks@[a].worker_id@ != s0.pending_tasks@[b].worker_id@);
            }
            assert forall|g: FrameId| #[trigger] self.in_pool(g) implies g < self.frame_count && !self.retired@.contains(g) by {
                assert(s0.in_pool(g));
                if g == f {
                    assert(s0.held_by(i, f));
                }
            }
            assert forall|j: int, g: FrameId| #[trigger] self.held_by(j, g)
                implies g < self.frame_count && !self.in_pool(g) && !self.retired@.contains(g) by {
                assert(s0.held_by(j, g));
                if g == f {
                    assert(s0.held_by(i, f));
                }
            }
            assert forall|a: int, b: int, g: FrameId| #[trigger] self.held_by(a, g) && #[trigger] self.held_by(b, g) implies a == b by {
                assert(s0.held_by(a, g));
                assert(s0.held_by(b, g));
            }
            assert(self.sound());
            assert forall|g: FrameId| g < self.frame_count implies #[trigger] self.is_placed(g) by {
                assert(s0.is_placed(g));
                if s0.is_held(g) && g != f {
                    let j = choose|j: int| s0.held_by(j, g);
                    assert(self.held_by(j, g));
                }
            }
            assert(self.pending_tasks@[i].frame_set() =~= s0.pending_tasks@[i].frame_set().remove(f)) by {
                assert forall|g: FrameId| t.contains(g) <==> base.contains(g) && g != f by {
                    assert(self.held_by(i, g) <==> s0.held_by(i, g) && g != f);
                }
            }
            assert(self.pending_tasks@[i].worker_id@ == worker_id@);
        }
        Ok(frame_id)
    }

    /// Continues a submission whose result was stored (`persisted`) or not.
    /// After a stored result one more frame from the pool joins the worker's
    /// task, whose lease then runs until `now` plus the lease duration, and
    /// the task is returned. Nothing changes when the result was not stored
    /// (`PersistenceFailed`), when the worker has no task (`UnknownWorker`)
    /// or when the pool is empty (`NoWorkAvailable`).
    pub fn complete_submission(&mut self, worker_id: &WorkerId, persisted: bool, now: u64) -> (r: Result<WorkerTask, ScheduleError>)
        requires
            old(self).wf(),
            now <= LATEST_CLOCK,
        ensures
            final(self).wf(),
            final(self).same_job(old(self)),
            final(self).next_worker_id == old(self).next_worker_id,
            final(self).retired@ == old(self).retired@,
            r is Err ==> final(self).frames@ == old(self).frames@
                && final(self).pending_tasks@ == old(self).pending_tasks@,
            !persisted ==> r == Err::<WorkerTask, ScheduleError>(ScheduleError::PersistenceFailed),
            persisted && !old(self).has_worker(worker_id@)
                ==> r == Err::<WorkerTask, ScheduleError>(ScheduleError::UnknownWorker),
            persisted && old(self).has_worker(worker_id@) && old(self).frames@.len() == 0
                ==> r == Err::<WorkerTask, ScheduleError>(ScheduleError::NoWorkAvailable),
            persisted && old(self).has_worker(worker_id@) && old(self).frames@.len() > 0 ==> {
                let i = old(self).index_of(worker_id@);
                let f = old(self).frames@.last();
                &&& r is Ok
                &&& final(self).frames@ == old(self).frames@.drop_last()
                &&& final(self).pending_tasks@.len() == old(self).pending_tasks@.len()
                &&& forall|j: int| 0 <= j < old(self).pending_tasks@.len() && j != i
                    ==> final(self).pending_tasks@[j] == old(self).pending_tasks@[j]
                &&& final(self).pending_tasks@[i].worker_id@ == worker_id@
                &&& final(self).pending_tasks@[i].lease_time == expiry_from(now)
                &&& final(self).pending_tasks@[i].frames@ == old(self).pending_tasks@[i].frames@.push(f)
                &&& r->Ok_0.worker_id@ == worker_id@
                &&& r->Ok_0.lease_time == expiry_from(now)
                &&& r->Ok_0.frames@ == final(self).pending_tasks@[i].frames@
                &&& Self::renewed(final(self), worker_id@, now)
            },
    {
        if !persisted {
            return Err(ScheduleError::PersistenceFailed);
        }
        if self.find_task(worker_id).is_none() {
            return Err(ScheduleError::UnknownWorker);
        }
        let ghost s0 = *self;
        proof {
            s0.lemma_wf_loose();
        }
        let f = match self.take_frame_id() {
            Some(f) => f,
            None => {
                proof {
                    self.lemma_wf_loose();
                }
                return Err(ScheduleError::NoWorkAvailable);
            }
        };
        let one: Vec<FrameId> = vec![f];
        proof {
            assert(one@[0] == f);
            assert(one@.no_duplicates());
        }
        let task = self.add_task(worker_id.clone(), one.as_slice(), now);
        proof {
            assert(one@.to_set() =~= Set::<FrameId>::empty().insert(f));
            assert(s0.in_pool(f));
            assert(self.loose() =~= s0.loose());
            self.lemma_wf_loose();
            assert(one@ =~= seq![f]);
            assert(seq![f] =~= Seq::<FrameId>::empty().push(f));
        }
        Ok(task)
    }

    /// Renews the lease of `worker_id` until `now` plus the lease duration.
    pub fn heartbeat(&mut self, worker_id: Option<WorkerId>, now: u64) -> (r: Result<(), ScheduleError>)
        requires
            old(self).wf(),
            now <= LATEST_CLOCK,
        ensures
            final(self).wf(),
            final(self).same_job(old(self)),
            final(self).frames@ == old(self).frames@,
            final(self).next_worker_id == old(self).next_worker_id,
            final(self).retired@ == old(self).retired@,
            r is Err ==> final(self).pending_tasks@ == old(self).pending_tasks@,
            worker_id is None ==> r == Err::<(), ScheduleError>(ScheduleError::Unauthenticated),
            worker_id matches Some(w) ==> (!old(self).has_worker(w@)
                ==> r == Err::<(), ScheduleError>(ScheduleError::UnknownWorker)),
            worker_id matches Some(w) ==> old(self).has_worker(w@) ==> {
                let i = old(self).index_of(w@);
                &&& r is Ok
                &&& final(self).pending_tasks@.len() == old(self).pending_tasks@.len()
                &&& forall|j: int| 0 <= j < old(self).pending_tasks@.len() && j != i
                    ==> final(self).pending_tasks@[j] == old(self).pending_tasks@[j]
                &&& final(self).pending_tasks@[i].worker_id@ == w@
                &&& final(self).pending_tasks@[i].frames@ == old(self).pending_tasks@[i].frames@
                &&& final(self).pending_tasks@[i].lease_time == expiry_from(now)
                &&& Self::renewed(final(self), w@, now)
            },
    {
        let worker_id = match worker_id {
            Some(w) => w,
            None => return Err(ScheduleError::Unauthenticated),
        };
        let idx = match self.find_task(&worker_id) {
            Some(i) => i,
            None => return Err(ScheduleError::UnknownWorker),
        };
        let ghost s0 = *self;
        let mut task = self.pending_tasks.remove(idx);
        task.lease_time = now + LEASE_SECONDS;
        self.pending_tasks.insert(idx, task);
        proof {
            Self::lemma_relet(&s0, self, idx as int);
            s0.lemma_wf_loose();
            self.lemma_wf_loose();
            assert(self.has_worker(worker_id@));
        }
        Ok(())
    }

    /// Removes the task at position `i` and returns its frames to the pool.
    fn reclaim_at(&mut self, i: usize)
        requires
            old(self).sound(),
            i < old(self).pending_tasks@.len(),
        ensures
            final(self).sound(),
            final(self).same_job(old(self)),
            final(self).next_worker_id == old(self).next_worker_id,
            final(self).retired@ == old(self).retired@,
            final(self).pending_tasks@ == old(self).pending_tasks@.remove(i as int),
            forall|f: FrameId| #[trigger] final(self).in_pool(f) <==> old(self).in_pool(f) || old(self).held_by(i as int, f),
            final(self).loose() == old(self).loose(),
    {
        let ghost s0 = *self;
        let task = self.pending_tasks.remove(i);
        let mut k: usize = 0;
        while k < task.frames.len()
            invariant
                task == s0.pending_tasks@[i as int],
                self.same_job(&s0),
                self.next_worker_id == s0.next_worker_id,
                self.retired@ == s0.retired@,
                self.pending_tasks@ == s0.pending_tasks@.remove(i as int),
                self.frames@ == s0.frames@ + task.frames@.take(k as int),
                k <= task.frames@.len(),
            decreases task.frames@.len() - k,
        {
            self.frames.push(task.frames[k]);
            k += 1;
            assert(self.frames@ =~= s0.frames@ + task.frames@.take(k as int));
        }
        proof {
            let ii = i as int;
            let t = task.frames@;
            let pool0 = s0.frames@;
            assert(t.take(t.len() as int) =~= t);
            assert(self.frames@ == pool0 + t);
            let n1 = self.pending_tasks@.len();
            assert(s0.pending_tasks@[ii].wf());
            assert forall|j: int| 0 <= j < n1 implies #[trigger] self.pending_tasks@[j]
                == s0.pending_tasks@[if j < ii { j } else { j + 1 }] by {}
            assert forall|f: FrameId| #[trigger] self.in_pool(f) <==> s0.in_pool(f) || s0.held_by(ii, f) by {
                if self.in_pool(f) {
                    let x = choose|x: int| 0 <= x < self.frames@.len() && self.frames@[x] == f;
                    if x < pool0.len() {
                        assert(pool0[x] == f);
                    } else {
                        assert(t[x - pool0.len()] == f);
                    }
                }
                if s0.in_pool(f) {
                    let x = choose|x: int| 0 <= x < pool0.len() && pool0[x] == f;
                    assert(self.frames@[x] == f);
                }
                if s0.held_by(ii, f) {
                    let x = choose|x: int| 0 <= x < t.len() && t[x] == f;
                    assert(self.frames@[pool0.len() + x] == f);
                }
            }
            assert forall|j: int, f: FrameId| #[trigger] self.held_by(j, f)
                <==> s0.held_by(if j < ii { j } else { j + 1 }, f) && 0 <= j < n1 by {}
            // no frame listed twice in the pool
            assert forall|x: int, y: int| 0 <= x < self.frames@.len() && 0 <= y < self.frames@.len() && x != y
                implies self.frames@[x] != self.frames@[y] by {
                let q = self.frames@;
                if x < pool0.len() && y < pool0.len() {
                    assert(q[x] == pool0[x] && q[y] == pool0[y]);
                } else if x >= pool0.len() && y >= pool0.len() {
                    assert(q[x] == t[x - pool0.len()] && q[y] == t[y - pool0.len()]);
                } else {
                    let a = if x < pool0.len() { x } else { y };
                    let b = if x < pool0.len() { y } else { x };
                    assert(q[a] == pool0[a]);
                    assert(q[b] == t[b - pool0.len()]);
                    assert(s0.held_by(ii, q[b]));
                    assert(s0.in_pool(q[a]));
                }
            }
            assert forall|j: int| 0 <= j < n1 implies (#[trigger] self.pending_tasks@[j]).wf() by {
                let j1 = if j < ii { j } else { j + 1 };
                assert(s0.pending_tasks@[j1].wf());
            }
            assert forall|j: int| 0 <= j < n1 implies self.registered(#[trigger] self.pending_tasks@[j].worker_id@) by {
                let j1 = if j < ii { j } else { j + 1 };
                assert(s0.registered(s0.pending_tasks@[j1].worker_id@));
            }
            assert forall|a: int, b: int| 0 <= a < n1 && 0 <= b < n1 && a != b
                implies #[trigger] self.pending_tasks@[a].worker_id@ != #[trigger] self.pending_tasks@[b].worker_id@ by {
                let a1 = if a < ii { a } else { a + 1 };
                let b1 = if b < ii { b } else { b + 1 };
                assert(s0.pending_tasks@[a1].worker_id@ != s0.pending_tasks@[b1].worker_id@);
            }
            assert forall|f: FrameId| #[trigger] self.in_pool(f) implies f < self.frame_count && !self.retired@.contains(f) by {
                if s0.held_by(ii, f) {
                    assert(s0.held_by(ii, f));
                } else {
                    assert(s0.in_pool(f));
                }
            }
            assert forall|j: int, f: FrameId| #[trigger] self.held_by(j, f)
                implies f < self.frame_count && !self.in_pool(f) && !self.retired@.contains(f) by {
                let j1 = if j < ii { j } else { j + 1 };
                assert(s0.held_by(j1, f));
                if s0.held_by(ii, f) {
                    assert(j1 != ii);
                }
            }
            assert forall|a: int, b: int, f: FrameId| #[trigger] self.held_by(a, f) && #[trigger] self.held_by(b, f) implies a == b by {
                let a1 = if a < ii { a } else { a + 1 };
                let b1 = if b < ii { b } else { b + 1 };
                assert(s0.held_by(a1, f));
                assert(s0.held_by(b1, f));
            }
            assert(self.sound());
            assert forall|f: FrameId| #[trigger] self.is_placed(f) == s0.is_placed(f) by {
                if self.is_held(f) {
                    let j = choose|j: int| self.held_by(j, f);
                    let j1 = if j < ii { j } else { j + 1 };
                    assert(s0.held_by(j1, f));
                }
                if s0.is_held(f) {
                    let j1 = choose|j1: int| s0.held_by(j1, f);
                    if j1 < ii {
                        assert(self.held_by(j1, f));
                    } else if j1 > ii {
                        assert(self.held_by(j1 - 1, f));
                    }
                }
            }
            assert(self.loose() =~= s0.loose());
        }
    }

    /// Removes every task whose lease ran out before `now` and returns its
    /// frames to the pool. The remaining tasks keep their order.
    pub fn clean_up(&mut self, now: u64)
        requires
            old(self).sound(),
        ensures
            final(self).sound(),
            final(self).same_job(old(self)),
            final(self).next_worker_id == old(self).next_worker_id,
            final(self).retired@ == old(self).retired@,
            final(self).pending_tasks@ == old(self).pending_tasks@.filter(live_at(now)),
            forall|f: FrameId| #[trigger] final(self).in_pool(f) <==> old(self).in_pool(f)
                || exists|i: int| old(self).held_by(i, f) && old(self).pending_tasks@[i].expired_at(now),
            final(self).loose() == old(self).loose(),
            forall|i: int| 0 <= i < old(self).pending_tasks@.len() && (#[trigger] old(self).pending_tasks@[i]).expired_at(now) ==> {
                &&& !final(self).has_worker(old(self).pending_tasks@[i].worker_id@)
                &&& forall|f: FrameId| old(self).held_by(i, f) ==> #[trigger] final(self).in_pool(f)
            },
    {
        let ghost s0 = *self;
        let ghost mut j: int = 0;
        let mut i: usize = 0;
        assert(s0.pending_tasks@.take(0).filter(live_at(now)) =~= Seq::<WorkerTask>::empty());
        assert(s0.pending_tasks@.skip(0) =~= s0.pending_tasks@);
        while i < self.pending_tasks.len()
            invariant
                s0.sound(),
                self.sound(),
                self.same_job(&s0),
                self.next_worker_id == s0.next_worker_id,
                self.retired@ == s0.retired@,
                self.loose() == s0.loose(),
                0 <= j <= s0.pending_tasks@.len(),
                self.pending_tasks@ == s0.pending_tasks@.take(j).filter(live_at(now)) + s0.pending_tasks@.skip(j),
                i == s0.pending_tasks@.take(j).filter(live_at(now)).len(),
                forall|f: FrameId| #[trigger] self.in_pool(f) <==> s0.in_pool(f)
                    || exists|x: int| 0 <= x < j && s0.held_by(x, f) && s0.pending_tasks@[x].expired_at(now),
            decreases self.pending_tasks@.len() - i,
        {
            let ghost before = *self;
            let ghost kept = s0.pending_tasks@.take(j).filter(live_at(now));
            proof {
                assert(s0.pending_tasks@.take(j + 1) =~= s0.pending_tasks@.take(j).push(s0.pending_tasks@[j]));
                s0.pending_tasks@.take(j).lemma_filter_push(s0.pending_tasks@[j], live_at(now));
                assert(s0.pending_tasks@.take(j + 1).filter(live_at(now)) == if live_at(now)(s0.pending_tasks@[j]) {
                    kept.push(s0.pending_tasks@[j])
                } else {
                    kept
                });
                assert(self.pending_tasks@[i as int] == s0.pending_tasks@[j]);
            }
            if self.pending_tasks[i].lease_time < now {
                self.reclaim_at(i);
                proof {
                    assert(before.pending_tasks@[i as int].lease_time < now);
                    assert(s0.pending_tasks@[j].expired_at(now));
                    assert(!live_at(now)(s0.pending_tasks@[j]));
                    assert(s0.pending_tasks@.take(j + 1).filter(live_at(now)) == kept);
                    assert(before.pending_tasks@ == kept + s0.pending_tasks@.skip(j));
                    assert(self.pending_tasks@ == before.pending_tasks@.remove(i as int));
                    assert(self.pending_tasks@.len() == kept.len() + s0.pending_tasks@.skip(j + 1).len());
                    assert forall|x: int| 0 <= x < self.pending_tasks@.len() implies self.pending_tasks@[x]
                        == (kept + s0.pending_tasks@.skip(j + 1))[x] by {
                        if x >= i {
                            assert(self.pending_tasks@[x] == before.pending_tasks@[x + 1]);
                            assert(before.pending_tasks@[x + 1] == s0.pending_tasks@.skip(j)[x + 1 - i]);
                        }
                    }
                    assert(self.pending_tasks@ =~= s0.pending_tasks@.take(j + 1).filter(live_at(now)) + s0.pending_tasks@.skip(j + 1));
                    assert forall|f: FrameId| #[trigger] self.in_pool(f) <==> s0.in_pool(f)
                        || exists|x: int| 0 <= x < j + 1 && s0.held_by(x, f) && s0.pending_tasks@[x].expired_at(now) by {
                        if before.held_by(i as int, f) {
                            assert(s0.held_by(j, f));
                        }
                        if s0.held_by(j, f) {
                            assert(before.held_by(i as int, f));
                        }
                    }
                }
            } else {
                i += 1;
                proof {
                    assert(live_at(now)(s0.pending_tasks@[j]));
                    assert(s0.pending_tasks@.take(j + 1).filter(live_at(now)) == kept.push(s0.pending_tasks@[j]));
                    assert forall|x: int| 0 <= x < self.pending_tasks@.len() implies self.pending_tasks@[x]
                        == (kept.push(s0.pending_tasks@[j]) + s0.pending_tasks@.skip(j + 1))[x] by {
                        if x >= i {
                            assert(self.pending_tasks@[x] == s0.pending_tasks@.skip(j)[x + 1 - i]);
                        }
                    }
                    assert(self.pending_tasks@ =~= s0.pending_tasks@.take(j + 1).filter(live_at(now)) + s0.pending_tasks@.skip(j + 1));
                    assert forall|f: FrameId| #[trigger] self.in_pool(f) <==> s0.in_pool(f)
                        || exists|x: int| 0 <= x < j + 1 && s0.held_by(x, f) && s0.pending_tasks@[x].expired_at(now) by {
                        if exists|x: int| 0 <= x < j + 1 && s0.held_by(x, f) && s0.pending_tasks@[x].expired_at(now) {
                            let x = choose|x: int| 0 <= x < j + 1 && s0.held_by(x, f) && s0.pending_tasks@[x].expired_at(now);
                            assert(x != j);
                        }
                    }
                }
            }
            proof {
                j = j + 1;
            }
        }
        proof {
            let n0 = s0.pending_tasks@.len();
            assert(j == n0);
            assert(s0.pending_tasks@.take(n0 as int) =~= s0.pending_tasks@);
            assert(s0.pending_tasks@.skip(n0 as int) =~= Seq::<WorkerTask>::empty());
            assert(self.pending_tasks@ =~= s0.pending_tasks@.filter(live_at(now)));
            let kept = s0.pending_tasks@.filter(live_at(now));
            assert forall|x: int| 0 <= x < n0 && (#[trigger] s0.pending_tasks@[x]).expired_at(now) implies {
                &&& !self.has_worker(s0.pending_tasks@[x].worker_id@)
                &&& forall|f: FrameId| s0.held_by(x, f) ==> #[trigger] self.in_pool(f)
            } by {
                let w = s0.pending_tasks@[x].worker_id@;
                if self.has_worker(w) {
                    let y = choose|y: int| 0 <= y < self.pending_tasks@.len() && #[trigger] self.pending_tasks@[y].worker_id@ == w;
                    s0.pending_tasks@.lemma_filter_pred(live_at(now), y);
                    assert(kept.contains(kept[y]));
                    s0.pending_tasks@.lemma_filter_contains_rev(live_at(now), kept[y]);
                    let z = choose|z: int| 0 <= z < n0 && s0.pending_tasks@[z] == kept[y];
                    assert(s0.pending_tasks@[z].worker_id@ == w);
                }
            }
        }
    }

    /// One tick of the expiry sweep: reclaims expired leases, then, where
    /// `detect_completion` is set, reports whether the whole job is done.
    pub fn sweep(&mut self, now: u64, detect_completion: bool) -> (r: SweepOutcome)
        requires
            old(self).wf(),
        ensures
            final(self).wf(),
            final(self).same_job(old(self)),
            final(self).next_worker_id == old(self).next_worker_id,
            final(self).retired@ == old(self).retired@,
            final(self).pending_tasks@ == old(self).pending_tasks@.filter(live_at(now)),
            forall|f: FrameId| #[trigger] final(self).in_pool(f) <==> old(self).in_pool(f)
                || exists|i: int| old(self).held_by(i, f) && old(self).pending_tasks@[i].expired_at(now),
            r == (if detect_completion && !final(self).work_remains() {
                SweepOutcome::JobComplete
            } else {
                SweepOutcome::Continue
            }),
    {
        proof {
            self.lemma_wf_loose();
        }
        self.clean_up(now);
        proof {
            self.lemma_wf_loose();
        }
        if detect_completion && !self.has_frames() {
            SweepOutcome::JobComplete
        } else {
            SweepOutcome::Continue
        }
    }

    /// Draws up to `n` frames from the pool, the last listed first.
    pub fn take_frames(&mut self, n: u32) -> (r: Vec<FrameId>)
        requires
            old(self).sound(),
        ensures
            final(self).sound(),
            final(self).same_job(old(self)),
            final(self).pending_tasks@ == old(self).pending_tasks@,
            final(self).next_worker_id == old(self).next_worker_id,
            final(self).retired@ == old(self).retired@,
            r@.len() == if n < old(self).frames@.len() { n as int } else { old(self).frames@.len() as int },
            final(self).frames@ == old(self).frames@.take(old(self).frames@.len() - r@.len()),
            forall|x: int| 0 <= x < r@.len() ==> r@[x] == old(self).frames@[old(self).frames@.len() - 1 - x],
            r@.no_duplicates(),
            final(self).loose() == old(self).loose().union(r@.to_set()),
            forall|f: FrameId| r@.contains(f) ==> old(self).in_pool(f) && !final(self).in_pool(f),
    {
        let ghost s0 = *self;
        let mut r: Vec<FrameId> = Vec::new();
        let mut k: u32 = 0;
        while k < n
            invariant
                s0.sound(),
                k <= n,
                self.sound(),
                self.same_job(&s0),
                self.pending_tasks@ == s0.pending_tasks@,
                self.next_worker_id == s0.next_worker_id,
                self.retired@ == s0.retired@,
                r@.len() <= k,
                r@.len() <= s0.frames@.len(),
                r@.len() < k ==> r@.len() == s0.frames@.len(),
                self.frames@ == s0.frames@.take(s0.frames@.len() - r@.len()),
                forall|x: int| 0 <= x < r@.len() ==> r@[x] == s0.frames@[s0.frames@.len() - 1 - x],
                r@.no_duplicates(),
                self.loose() == s0.loose().union(r@.to_set()),
                forall|f: FrameId| r@.contains(f) ==> s0.in_pool(f) && !self.in_pool(f),
            decreases n - k,
        {
            let ghost before = *self;
            let ghost rb = r@;
            match self.take_frame_id() {
                Some(f) => {
                    r.push(f);
                    proof {
                        let m = s0.frames@.len() - rb.len();
                        assert(self.frames@ =~= s0.frames@.take(m - 1));
                        assert(f == s0.frames@[m - 1]);
                        assert forall|g: FrameId| r@.contains(g) <==> rb.contains(g) || g == f by {
                            if r@.contains(g) && g != f {
                                let x = choose|x: int| 0 <= x < r@.len() && r@[x] == g;
                                assert(rb[x] == g);
                            }
                            if rb.contains(g) {
                                let x = choose|x: int| 0 <= x < rb.len() && rb[x] == g;
                                assert(r@[x] == g);
                            }
                            if g == f {
                                assert(r@[rb.len() as int] == g);
                            }
                        }
                        assert forall|g: FrameId| #[trigger] r@.to_set().contains(g) <==> rb.to_set().insert(f).contains(g) by {
                            assert(r@.to_set().contains(g) == r@.contains(g));
                            assert(rb.to_set().contains(g) == rb.contains(g));
                        }
                        assert(r@.to_set() =~= rb.to_set().insert(f));
                        assert(self.loose() =~= s0.loose().union(r@.to_set()));
                        assert forall|g: FrameId| r@.contains(g) implies s0.in_pool(g) && !self.in_pool(g) by {
                            if g != f {
                                let x = choose|x: int| 0 <= x < r@.len() && r@[x] == g;
                                assert(rb[x] == g);
                            } else {
                                assert(before.frames@.last() == f);
                                assert(s0.frames@[m - 1] == f);
                            }
                        }
                        assert forall|x: int, y: int| 0 <= x < r@.len() && 0 <= y < r@.len() && x != y
                            implies r@[x] != r@[y] by {
                            if x == rb.len() || y == rb.len() {
                                let z = if x == rb.len() { y } else { x };
                                assert(r@[z] == s0.frames@[s0.frames@.len() - 1 - z]);
                                assert(r@[rb.len() as int] == s0.frames@[s0.frames@.len() - 1 - rb.len()]);
                            } else {
                                assert(r@[x] == rb[x]);
                                assert(r@[y] == rb[y]);
                            }
                        }
                    }
                }
                None => {
                    assert(self.frames@.len() == 0);
                }
            }
            k += 1;
        }
        r
    }
}

} // verus!
