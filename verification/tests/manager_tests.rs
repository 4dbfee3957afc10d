use local_ci::git::CommitHash;
use local_ci::job::{JobAction, JobEvent, JobState, Phase};
use local_ci::test::{has_rev, Manager, ManagerError, TestName};

fn rev(s: &str) -> CommitHash {
    CommitHash::new(s.to_string())
}

fn revs(names: Vec<&str>) -> Vec<CommitHash> {
    names.into_iter().map(rev).collect()
}

fn texts(v: &Vec<CommitHash>) -> Vec<String> {
    v.iter().map(|h| h.as_str().to_string()).collect()
}

fn manager() -> Manager {
    Manager::new("bash".to_string(), vec!["-c".to_string(), "true".to_string()])
}

fn run(events: Vec<JobEvent>) -> (JobState, Vec<JobAction>) {
    let mut s = JobState::new();
    let mut actions = Vec::new();
    for e in events {
        actions.push(s.step(e));
    }
    (s, actions)
}

#[test]
fn test_set_revisions_starts_new_revisions() {
    let mut m = manager();
    let d = m.set_revisions(&revs(vec!["r1", "r2"]), &vec![], false).ok().unwrap();
    assert_eq!(texts(&d.cancelled), Vec::<String>::new());
    let started: Vec<&str> = d.jobs.iter().map(|j| j.rev.as_str()).collect();
    assert_eq!(started, vec!["r1", "r2"]);
    assert_eq!(d.jobs[0].program, "bash");
    assert_eq!(d.jobs[0].args, vec!["-c".to_string(), "true".to_string()]);
    assert!(!d.jobs[0].ct.is_cancelled());
    assert!(m.is_in_flight(&rev("r1")));
    assert!(m.is_in_flight(&rev("r2")));
}

#[test]
fn test_set_revisions_cancels_dropped_revisions() {
    let mut m = manager();
    let first = m.set_revisions(&revs(vec!["r1", "r2"]), &vec![], false).ok().unwrap();
    let second = m.set_revisions(&revs(vec!["r2", "r3"]), &vec![], false).ok().unwrap();
    assert_eq!(texts(&second.cancelled), vec!["r1".to_string()]);
    let started: Vec<&str> = second.jobs.iter().map(|j| j.rev.as_str()).collect();
    assert_eq!(started, vec!["r3"]);
    assert!(first.jobs[0].ct.is_cancelled());
    assert!(!first.jobs[1].ct.is_cancelled());
    assert!(!second.jobs[0].ct.is_cancelled());
    assert!(!m.is_in_flight(&rev("r1")));
    assert!(m.is_in_flight(&rev("r2")));
    assert!(m.is_in_flight(&rev("r3")));
}

#[test]
fn test_set_revisions_skips_cached_and_repeated() {
    let mut m = manager();
    let d = m
        .set_revisions(&revs(vec!["r1", "r2", "r1", "r3"]), &revs(vec!["r2"]), false)
        .ok()
        .unwrap();
    let started: Vec<&str> = d.jobs.iter().map(|j| j.rev.as_str()).collect();
    assert_eq!(started, vec!["r1", "r3"]);
    assert!(!m.is_in_flight(&rev("r2")));
    let again = m.set_revisions(&revs(vec!["r1", "r3"]), &vec![], false).ok().unwrap();
    assert_eq!(again.jobs.len(), 0);
    assert_eq!(again.cancelled.len(), 0);
}

#[test]
fn test_set_revisions_reports_dead_worker() {
    let mut m = manager();
    let first = m.set_revisions(&revs(vec!["r1"]), &vec![], false).ok().unwrap();
    let r = m.set_revisions(&revs(vec!["r2"]), &vec![], true);
    assert_eq!(r.err(), Some(ManagerError::WorkerDied));
    assert!(first.jobs[0].ct.is_cancelled());
    assert!(!m.is_in_flight(&rev("r1")));
    assert!(!m.is_in_flight(&rev("r2")));
}

#[test]
fn test_cancelled_revision_can_be_wanted_again() {
    let mut m = manager();
    let first = m.set_revisions(&revs(vec!["r1"]), &vec![], false).ok().unwrap();
    let _ = m.set_revisions(&vec![], &vec![], false).ok().unwrap();
    let third = m.set_revisions(&revs(vec!["r1"]), &vec![], false).ok().unwrap();
    assert_eq!(third.jobs.len(), 1);
    assert!(first.jobs[0].ct.is_cancelled());
    assert!(!third.jobs[0].ct.is_cancelled());
}

#[test]
fn test_job_finished_forgets_the_revision() {
    let mut m = manager();
    let _ = m.set_revisions(&revs(vec!["r1", "r2"]), &vec![], false).ok().unwrap();
    m.job_finished(&rev("r1"));
    assert!(!m.is_in_flight(&rev("r1")));
    assert!(m.is_in_flight(&rev("r2")));
    let d = m.set_revisions(&revs(vec!["r1", "r2"]), &vec![], false).ok().unwrap();
    let started: Vec<&str> = d.jobs.iter().map(|j| j.rev.as_str()).collect();
    assert_eq!(started, vec!["r1"]);
}

#[test]
fn test_has_rev() {
    let v = revs(vec!["a", "b"]);
    assert!(has_rev(&v, &rev("b")));
    assert!(!has_rev(&v, &rev("c")));
}

#[test]
fn test_test_name() {
    let n = TestName::new("unit".to_string());
    assert_eq!(n.as_str(), "unit");
    assert!(n.same(&n.clone()));
    assert!(!n.same(&TestName::new("lint".to_string())));
}

#[test]
fn test_job_runs_to_a_recorded_result() {
    let (s, actions) = run(vec![
        JobEvent::Start,
        JobEvent::CheckedOut,
        JobEvent::Spawned,
        JobEvent::Exited,
    ]);
    assert_eq!(
        actions,
        vec![JobAction::Checkout, JobAction::Spawn, JobAction::Nothing, JobAction::Record]
    );
    assert!(s.is_done());
    assert!(!s.cancelled);
}

#[test]
fn test_cancel_interrupts_then_kills_then_discards() {
    let (s, actions) = run(vec![
        JobEvent::Start,
        JobEvent::CheckedOut,
        JobEvent::Spawned,
        JobEvent::Cancel,
        JobEvent::Cancel,
        JobEvent::GraceElapsed,
        JobEvent::GraceElapsed,
        JobEvent::Exited,
        JobEvent::Cancel,
    ]);
    assert_eq!(
        actions,
        vec![
            JobAction::Checkout,
            JobAction::Spawn,
            JobAction::Nothing,
            JobAction::Interrupt,
            JobAction::Nothing,
            JobAction::Kill,
            JobAction::Nothing,
            JobAction::Discard,
            JobAction::Nothing,
        ]
    );
    assert_eq!(s.phase, Phase::Done);
    assert!(s.cancelled && s.interrupted && s.killed);
}

#[test]
fn test_cancel_before_spawn_prevents_spawn() {
    let (_, early) = run(vec![JobEvent::Cancel, JobEvent::Start]);
    assert_eq!(early, vec![JobAction::Nothing, JobAction::Discard]);
    let (_, during) = run(vec![JobEvent::Start, JobEvent::Cancel, JobEvent::CheckedOut]);
    assert_eq!(during, vec![JobAction::Checkout, JobAction::Nothing, JobAction::Discard]);
}

#[test]
fn test_cancel_while_spawning_interrupts_at_once() {
    let (_, actions) = run(vec![
        JobEvent::Start,
        JobEvent::CheckedOut,
        JobEvent::Cancel,
        JobEvent::Spawned,
        JobEvent::Exited,
    ]);
    assert_eq!(
        actions,
        vec![
            JobAction::Checkout,
            JobAction::Spawn,
            JobAction::Nothing,
            JobAction::Interrupt,
            JobAction::Discard,
        ]
    );
}

#[test]
fn test_failures_before_the_subprocess() {
    let (_, a) = run(vec![JobEvent::Start, JobEvent::CheckoutFailed]);
    assert_eq!(a, vec![JobAction::Checkout, JobAction::Fail]);
    let (_, b) = run(vec![JobEvent::Start, JobEvent::CheckedOut, JobEvent::SpawnFailed]);
    assert_eq!(b, vec![JobAction::Checkout, JobAction::Spawn, JobAction::Fail]);
    let (_, c) = run(vec![
        JobEvent::Start,
        JobEvent::Cancel,
        JobEvent::CheckoutFailed,
    ]);
    assert_eq!(c, vec![JobAction::Checkout, JobAction::Nothing, JobAction::Discard]);
}

#[test]
fn test_grace_period_without_cancel_does_nothing() {
    let (s, actions) = run(vec![
        JobEvent::Start,
        JobEvent::CheckedOut,
        JobEvent::Spawned,
        JobEvent::GraceElapsed,
        JobEvent::Exited,
    ]);
    assert_eq!(actions[3], JobAction::Nothing);
    assert_eq!(actions[4], JobAction::Record);
    assert!(!s.killed);
}

#[test]
fn test_unexpected_events_change_nothing() {
    let (s, actions) = run(vec![JobEvent::Exited, JobEvent::Spawned, JobEvent::GraceElapsed]);
    assert_eq!(actions, vec![JobAction::Nothing, JobAction::Nothing, JobAction::Nothing]);
    assert_eq!(s, JobState::new());
}
