use vstd::prelude::*;

verus! {

/// Parameters of a request for work.
pub struct TaskQuery {
    /// How many frames the worker asks for.
    pub count: Option<u32>,
}

impl TaskQuery {
    /// The number of frames asked for: `count`, or one where absent.
    pub fn requested_count(&self) -> (r: u32)
        ensures
            r == match self.count {
                Some(c) => c,
                None => 1,
            },
    {
        match self.count {
            Some(c) => c,
            None => 1,
        }
    }
}

/// Parameters of a submission: the frame it is for, where named.
pub struct FrameQuery {
    pub frame_id: Option<u64>,
}

} // verus!
