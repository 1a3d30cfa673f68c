use std::collections::BTreeSet;
use std::sync::Arc;

use render_coordinator::decimal::decimal_string;
use render_coordinator::query::{FrameQuery, TaskQuery};
use render_coordinator::state::{ScheduleError, SharedState, SweepOutcome, LEASE_SECONDS, SWEEP_INTERVAL_SECONDS};
use render_coordinator::task::WorkerTask;

const START: u64 = 1_700_000_000;

fn job(frame_count: u64) -> SharedState {
    SharedState::new(Arc::new(vec![1, 2, 3]), "/tmp/frames".to_string(), frame_count)
}

fn set_of(frames: &[u64]) -> BTreeSet<u64> {
    frames.iter().cloned().collect()
}

fn task_of<'a>(state: &'a SharedState, worker: &str) -> Option<&'a WorkerTask> {
    state.pending_tasks.iter().find(|t| t.worker_id == worker)
}

/// Every frame is in the pool, in one task, or in `done`, exactly once.
fn assert_partition(state: &SharedState, done: &[u64]) {
    let mut seen: Vec<u64> = state.frames.clone();
    for t in &state.pending_tasks {
        seen.extend(t.frames.iter().cloned());
    }
    seen.extend(done.iter().cloned());
    seen.sort();
    let expected: Vec<u64> = (0..state.frame_count).collect();
    assert_eq!(seen, expected);
}

#[test]
fn fresh_state_holds_every_frame_in_pool() {
    let state = job(4);
    assert_eq!(set_of(&state.frames), set_of(&[0, 1, 2, 3]));
    assert!(state.pending_tasks.is_empty());
    assert_eq!(state.next_worker_id, 1);
    assert!(state.has_frames());
}

#[test]
fn lease_constants() {
    assert_eq!(LEASE_SECONDS, 20 * 60);
    assert_eq!(SWEEP_INTERVAL_SECONDS, 5);
}

#[test]
fn decimal_formatting() {
    assert_eq!(decimal_string(0), "0");
    assert_eq!(decimal_string(7), "7");
    assert_eq!(decimal_string(10), "10");
    assert_eq!(decimal_string(1234567890), "1234567890");
    assert_eq!(decimal_string(u64::MAX), u64::MAX.to_string());
}

#[test]
fn workers_are_numbered_from_one() {
    let mut state = job(1);
    assert_eq!(state.create_worker(), "1");
    assert_eq!(state.create_worker(), "2");
    assert_eq!(state.next_worker_id, 3);
}

#[test]
fn take_frame_id_empties_pool() {
    let mut state = job(2);
    let a = state.take_frame_id().unwrap();
    let b = state.take_frame_id().unwrap();
    assert_ne!(a, b);
    assert_eq!(set_of(&[a, b]), set_of(&[0, 1]));
    assert_eq!(state.take_frame_id(), None);
}

#[test]
fn take_frames_draws_at_most_pool() {
    let mut state = job(3);
    let first = state.take_frames(2);
    assert_eq!(first.len(), 2);
    let rest = state.take_frames(5);
    assert_eq!(rest.len(), 1);
    assert!(state.frames.is_empty());
    assert!(state.take_frames(1).is_empty());
}

#[test]
fn worker_task_new_dedups() {
    let t = WorkerTask::new("9".to_string(), &[3, 1, 3, 2, 1], 42);
    assert_eq!(t.worker_id, "9");
    assert_eq!(t.lease_time, 42);
    assert_eq!(t.frames, vec![3, 1, 2]);
}

#[test]
fn task_query_defaults_to_one() {
    assert_eq!(TaskQuery { count: None }.requested_count(), 1);
    assert_eq!(TaskQuery { count: Some(4) }.requested_count(), 4);
    let q = FrameQuery { frame_id: Some(3) };
    assert_eq!(q.frame_id, Some(3));
}

#[test]
fn three_frame_scenario() {
    let mut state = job(3);
    let a = state.request_task(2, START).unwrap();
    assert_eq!(a.frames.len(), 2);
    assert_eq!(a.worker_id, "1");
    assert_eq!(a.lease_time, START + LEASE_SECONDS);
    let b = state.request_task(1, START).unwrap();
    assert_eq!(b.frames.len(), 1);
    assert_eq!(b.worker_id, "2");
    let mut all = set_of(&a.frames);
    all.extend(b.frames.iter().cloned());
    assert_eq!(all, set_of(&[0, 1, 2]));
    assert_eq!(state.request_task(1, START).unwrap_err(), ScheduleError::NoWorkAvailable);

    // a frame of B is not A's
    assert_eq!(
        state.submit_frame(Some(a.worker_id.clone()), Some(b.frames[0])).unwrap_err(),
        ScheduleError::FrameNotOwned
    );
    let mut done = Vec::new();
    for f in a.frames.iter() {
        assert_eq!(state.submit_frame(Some(a.worker_id.clone()), Some(*f)), Ok(*f));
        done.push(*f);
        assert_partition(&state, &done);
    }
    assert!(task_of(&state, "1").unwrap().frames.is_empty());
    // submitting again is stale
    assert_eq!(
        state.submit_frame(Some(a.worker_id.clone()), Some(a.frames[0])).unwrap_err(),
        ScheduleError::FrameNotOwned
    );
}

#[test]
fn expired_task_is_reclaimed() {
    let mut state = job(2);
    let a = state.request_task(2, START).unwrap();
    assert!(state.frames.is_empty());
    let later = START + LEASE_SECONDS + 1;
    assert_eq!(state.sweep(later, false), SweepOutcome::Continue);
    assert!(task_of(&state, &a.worker_id).is_none());
    assert_eq!(set_of(&state.frames), set_of(&[0, 1]));
    let again = state.request_task(2, later).unwrap();
    assert_eq!(set_of(&again.frames), set_of(&[0, 1]));
    assert_eq!(again.worker_id, "2");
}

#[test]
fn lease_is_kept_until_it_has_passed() {
    let mut state = job(1);
    state.request_task(1, START).unwrap();
    state.clean_up(START + LEASE_SECONDS);
    assert_eq!(state.pending_tasks.len(), 1);
    state.clean_up(START + LEASE_SECONDS + 1);
    assert!(state.pending_tasks.is_empty());
    assert_eq!(state.frames, vec![0]);
}

#[test]
fn clean_up_keeps_live_tasks_in_order() {
    let mut state = job(3);
    state.request_task(1, START).unwrap();
    state.request_task(1, START + 100).unwrap();
    state.request_task(1, START + 200).unwrap();
    state.clean_up(START + LEASE_SECONDS + 50);
    let ids: Vec<&str> = state.pending_tasks.iter().map(|t| t.worker_id.as_str()).collect();
    assert_eq!(ids, vec!["2", "3"]);
    assert_eq!(state.frames.len(), 1);
    assert_partition(&state, &[]);
}

#[test]
fn heartbeat_errors_and_renewal() {
    let mut state = job(1);
    assert_eq!(state.heartbeat(Some("1".to_string()), START), Err(ScheduleError::UnknownWorker));
    assert_eq!(state.heartbeat(None, START), Err(ScheduleError::Unauthenticated));
    let a = state.request_task(1, START).unwrap();
    let renewal = START + 600;
    assert_eq!(state.heartbeat(Some(a.worker_id.clone()), renewal), Ok(()));
    assert_eq!(task_of(&state, "1").unwrap().lease_time, renewal + LEASE_SECONDS);
    // the first expiry has passed, the renewed one has not
    state.sweep(START + LEASE_SECONDS + 1, false);
    assert!(task_of(&state, "1").is_some());
    state.sweep(renewal + LEASE_SECONDS + 1, false);
    assert!(task_of(&state, "1").is_none());
    assert_eq!(state.frames, vec![0]);
}

#[test]
fn heartbeat_never_shortens_lease() {
    let mut state = job(2);
    let a = state.request_task(2, START).unwrap();
    let mut last = a.lease_time;
    for step in 1..5u64 {
        state.heartbeat(Some("1".to_string()), START + step * 60).unwrap();
        let now = task_of(&state, "1").unwrap().lease_time;
        assert!(now >= last);
        last = now;
    }
}

#[test]
fn single_frame_two_requests() {
    let mut state = job(1);
    let first = state.request_task(1, START);
    let second = state.request_task(1, START);
    assert!(first.is_ok());
    assert_eq!(second.unwrap_err(), ScheduleError::NoWorkAvailable);
}

#[test]
fn zero_count_request_fails() {
    let mut state = job(2);
    assert_eq!(state.request_task(0, START).unwrap_err(), ScheduleError::NoWorkAvailable);
    assert_eq!(state.frames.len(), 2);
    assert_eq!(state.next_worker_id, 1);
}

#[test]
fn tasks_never_share_frames() {
    let mut state = job(6);
    let a = state.request_task(2, START).unwrap();
    let b = state.request_task(3, START).unwrap();
    let c = state.request_task(4, START).unwrap();
    assert_eq!(c.frames.len(), 1);
    let sa = set_of(&a.frames);
    let sb = set_of(&b.frames);
    let sc = set_of(&c.frames);
    assert!(sa.is_disjoint(&sb) && sa.is_disjoint(&sc) && sb.is_disjoint(&sc));
    assert!(state.frames.is_empty());
    assert_partition(&state, &[]);
}

#[test]
fn pending_frame_lookup() {
    let mut state = job(3);
    let a = state.request_task(2, START).unwrap();
    let b = state.request_task(1, START).unwrap();
    assert_eq!(state.get_pending_frame_id(a.worker_id.clone()), None);
    assert_eq!(state.get_pending_frame_id(b.worker_id.clone()), Some(b.frames[0]));
    assert_eq!(state.get_pending_frame_id("77".to_string()), None);
}

#[test]
fn submit_frame_errors() {
    let mut state = job(3);
    let a = state.request_task(2, START).unwrap();
    assert_eq!(state.submit_frame(None, Some(0)), Err(ScheduleError::Unauthenticated));
    assert_eq!(
        state.submit_frame(Some(a.worker_id.clone()), None),
        Err(ScheduleError::AmbiguousOrMissingFrame)
    );
    assert_eq!(
        state.submit_frame(Some("01".to_string()), Some(a.frames[0])),
        Err(ScheduleError::UnknownWorker)
    );
    assert_eq!(
        state.submit_frame(Some("9".to_string()), None),
        Err(ScheduleError::AmbiguousOrMissingFrame)
    );
    assert_eq!(state.frames.len(), 1);
    assert_eq!(task_of(&state, "1").unwrap().frames.len(), 2);
}

#[test]
fn submit_infers_single_frame() {
    let mut state = job(2);
    let a = state.request_task(1, START).unwrap();
    assert_eq!(state.submit_frame(Some(a.worker_id.clone()), None), Ok(a.frames[0]));
    assert!(task_of(&state, "1").unwrap().frames.is_empty());
}

#[test]
fn completed_submission_grants_next_frame() {
    let mut state = job(2);
    let a = state.request_task(1, START).unwrap();
    let f = state.submit_frame(Some(a.worker_id.clone()), None).unwrap();
    let later = START + 300;
    let next = state.complete_submission(&a.worker_id, true, later).unwrap();
    assert_eq!(next.worker_id, "1");
    assert_eq!(next.lease_time, later + LEASE_SECONDS);
    assert_eq!(next.frames.len(), 1);
    assert_ne!(next.frames[0], f);
    assert!(state.frames.is_empty());
    assert_eq!(task_of(&state, "1").unwrap().frames, next.frames);
    assert_partition(&state, &[f]);
    // the pool is now empty
    let g = state.submit_frame(Some(a.worker_id.clone()), None).unwrap();
    assert_eq!(
        state.complete_submission(&a.worker_id, true, later).unwrap_err(),
        ScheduleError::NoWorkAvailable
    );
    assert_partition(&state, &[f, g]);
}

#[test]
fn failed_persistence_changes_nothing_more() {
    let mut state = job(2);
    let a = state.request_task(1, START).unwrap();
    let f = state.submit_frame(Some(a.worker_id.clone()), None).unwrap();
    assert_eq!(
        state.complete_submission(&a.worker_id, false, START).unwrap_err(),
        ScheduleError::PersistenceFailed
    );
    assert_eq!(state.frames.len(), 1);
    assert!(task_of(&state, "1").unwrap().frames.is_empty());
    // the submitted frame is gone from circulation even after expiry
    state.clean_up(START + LEASE_SECONDS + 1);
    assert_eq!(state.frames.len(), 1);
    assert!(!state.frames.contains(&f));
}

#[test]
fn completion_after_reclaimed_worker_is_unknown() {
    let mut state = job(2);
    let a = state.request_task(1, START).unwrap();
    state.submit_frame(Some(a.worker_id.clone()), None).unwrap();
    state.clean_up(START + LEASE_SECONDS + 1);
    assert_eq!(
        state.complete_submission(&a.worker_id, true, START + LEASE_SECONDS + 1).unwrap_err(),
        ScheduleError::UnknownWorker
    );
}

#[test]
fn add_task_merges_into_existing_task() {
    let mut state = job(3);
    let a = state.request_task(1, START).unwrap();
    let f = state.take_frame_id().unwrap();
    let merged = state.add_task(a.worker_id.clone(), &[f], START + 10);
    assert_eq!(merged.frames, vec![a.frames[0], f]);
    assert_eq!(merged.lease_time, START + 10 + LEASE_SECONDS);
    assert_eq!(state.pending_tasks.len(), 1);
}

#[test]
fn sweep_detects_completion() {
    let mut state = job(2);
    let a = state.request_task(2, START).unwrap();
    assert_eq!(state.sweep(START, true), SweepOutcome::Continue);
    for f in a.frames.iter() {
        state.submit_frame(Some(a.worker_id.clone()), Some(*f)).unwrap();
    }
    assert!(!state.has_frames());
    assert_eq!(state.sweep(START + 5, false), SweepOutcome::Continue);
    assert_eq!(state.sweep(START + 10, true), SweepOutcome::JobComplete);
}

#[test]
fn sweep_reclaims_before_completion_check() {
    let mut state = job(1);
    state.request_task(1, START).unwrap();
    assert_eq!(state.sweep(START + LEASE_SECONDS + 1, true), SweepOutcome::Continue);
    assert_eq!(state.frames, vec![0]);
}
