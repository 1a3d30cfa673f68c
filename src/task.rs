use vstd::prelude::*;

verus! {

/// Identifier of one unit of work.
pub type FrameId = u64;

/// Identity of a worker: the decimal text of its registration number.
pub type WorkerId = String;

/// A lease: the frames granted to one worker and the instant, in seconds
/// since the Unix epoch, after which the grant counts as abandoned.
#[derive(Debug, Clone)]
pub struct WorkerTask {
    pub worker_id: WorkerId,
    pub lease_time: u64,
    pub frames: Vec<FrameId>,
}

/// Whether `f` occurs in `frames`.
pub fn contains_frame(frames: &Vec<FrameId>, f: FrameId) -> (r: bool)
    ensures
        r == frames@.contains(f),
{
    let mut k: usize = 0;
    while k < frames.len()
        invariant
            k <= frames@.len(),
            forall|x: int| 0 <= x < k ==> frames@[x] != f,
        decreases frames@.len() - k,
    {
        if frames[k] == f {
            return true;
        }
        k += 1;
    }
    false
}

/// Position of `f` in `frames`, if it occurs there.
pub fn position_of_frame(frames: &Vec<FrameId>, f: FrameId) -> (r: Option<usize>)
    ensures
        match r {
            Some(k) => k < frames@.len() && frames@[k as int] == f,
            None => !frames@.contains(f),
        },
{
    let mut k: usize = 0;
    while k < frames.len()
        invariant
            k <= frames@.len(),
            forall|x: int| 0 <= x < k ==> frames@[x] != f,
        decreases frames@.len() - k,
    {
        if frames[k] == f {
            return Some(k);
        }
        k += 1;
    }
    None
}

/// The frames of `frames`, in a new vector.
pub fn copy_frames(frames: &Vec<FrameId>) -> (r: Vec<FrameId>)
    ensures
        r@ == frames@,
{
    let mut r: Vec<FrameId> = Vec::new();
    let mut k: usize = 0;
    while k < frames.len()
        invariant
            k <= frames@.len(),
            r@ == frames@.take(k as int),
        decreases frames@.len() - k,
    {
        r.push(frames[k]);
        k += 1;
        assert(r@ =~= frames@.take(k as int));
    }
    assert(r@ =~= frames@);
    r
}

impl WorkerTask {
    /// The frames of the task as a set.
    pub open spec fn frame_set(&self) -> Set<FrameId> {
        self.frames@.to_set()
    }

    /// A task lists each of its frames once.
    pub open spec fn wf(&self) -> bool {
        self.frames@.no_duplicates()
    }

    /// Whether the lease has run out at instant `now`.
    pub open spec fn expired_at(&self, now: u64) -> bool {
        self.lease_time < now
    }

    /// A task for `worker_id` holding the frames of `frames`, each once, in
    /// the order of their first occurrence, with the given lease expiry.
    pub fn new(worker_id: WorkerId, frames: &[FrameId], lease_time: u64) -> (r: Self)
        ensures
            r.worker_id == worker_id,
            r.lease_time == lease_time,
            r.wf(),
            r.frame_set() == frames@.to_set(),
            frames@.no_duplicates() ==> r.frames@ == frames@,
    {
        let mut set: Vec<FrameId> = Vec::new();
        let mut k: usize = 0;
        while k < frames.len()
            invariant
                k <= frames@.len(),
                set@.no_duplicates(),
                forall|f: FrameId| set@.contains(f) <==> frames@.take(k as int).contains(f),
                frames@.no_duplicates() ==> set@ == frames@.take(k as int),
            decreases frames@.len() - k,
        {
            let f = frames[k];
            let ghost before = set@;
            assert(forall|g: FrameId| before.contains(g) <==> frames@.take(k as int).contains(g));
            proof {
                assert(frames@.take(k + 1) =~= frames@.take(k as int).push(f));
            }
            if !contains_frame(&set, f) {
                set.push(f);
                proof {
                    assert forall|g: FrameId| set@.contains(g) <==> frames@.take(k + 1).contains(g) by {
                        if set@.contains(g) && g != f {
                            let x = choose|x: int| 0 <= x < set@.len() && set@[x] == g;
                            assert(before[x] == g);
                            assert(before.contains(g));
                            let y = choose|y: int| 0 <= y < k && #[trigger] frames@.take(k as int)[y] == g;
                            assert(frames@.take(k + 1)[y] == g);
                        }
                        if frames@.take(k + 1).contains(g) && g != f {
                            let x = choose|x: int| 0 <= x < k + 1 && #[trigger] frames@.take(k + 1)[x] == g;
                            assert(frames@.take(k as int)[x] == g);
                            assert(frames@.take(k as int).contains(g));
                            assert(before.contains(g));
                            let y = choose|y: int| 0 <= y < before.len() && before[y] == g;
                            assert(set@[y] == g);
                        }
                        if g == f {
                            assert(set@[set@.len() - 1] == g);
                            assert(frames@.take(k + 1)[k as int] == g);
                        }
                    }
                }
            } else {
                proof {
                    if frames@.no_duplicates() {
                        let x = choose|x: int| 0 <= x < k && frames@.take(k as int)[x] == f;
                        assert(frames@[x] == frames@[k as int]);
                    }
                    assert forall|g: FrameId| set@.contains(g) <==> frames@.take(k + 1).contains(g) by {
                        if frames@.take(k + 1).contains(g) && g != f {
                            let x = choose|x: int| 0 <= x < k + 1 && #[trigger] frames@.take(k + 1)[x] == g;
                            assert(frames@.take(k as int)[x] == g);
                        }
                    }
                }
            }
            k += 1;
        }
        assert(frames@.take(frames@.len() as int) =~= frames@);
        assert(set@.to_set() =~= frames@.to_set());
        WorkerTask { worker_id, lease_time, frames: set }
    }

    /// A snapshot of the lease, field by field.
    pub fn snapshot(&self) -> (r: Self)
        ensures
            r.worker_id@ == self.worker_id@,
            r.lease_time == self.lease_time,
            r.frames@ == self.frames@,
    {
        WorkerTask {
            worker_id: self.worker_id.clone(),
            lease_time: self.lease_time,
            frames: copy_frames(&self.frames),
        }
    }
}

} // verus!
