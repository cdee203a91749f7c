use shuttle::build_sched::{
    worker_count, FailedBuilds, Pool, Step, MAX_PARALLEL_BUILD_WORKERS,
};

fn graph(pairs: &[(&str, &[&str])]) -> Vec<(String, Vec<String>)> {
    pairs
        .iter()
        .map(|(name, deps)| (name.to_string(), deps.iter().map(|d| d.to_string()).collect()))
        .collect()
}

struct Run {
    events: Vec<String>,
    max_inflight: usize,
    outcome: Result<(), FailedBuilds>,
}

impl Run {
    fn position(&self, event: &str) -> usize {
        self.events
            .iter()
            .position(|e| e == event)
            .unwrap_or_else(|| panic!("event {event} not in log {:?}", self.events))
    }
}

/// Runs a graph with a number of workers; the job that began first ends first.
fn run_ready_set(
    g: &[(String, Vec<String>)],
    pre_done: &[&str],
    workers: usize,
    job: impl Fn(&str) -> Result<(), String>,
) -> Run {
    let known: Vec<String> = pre_done.iter().map(|s| s.to_string()).collect();
    let mut sched = Pool::new(&g.to_vec(), &known, workers);
    assert_eq!(sched.workers(), worker_count(workers, g.len()));
    let mut running: Vec<usize> = Vec::new();
    let mut events = Vec::new();
    let mut max_inflight = 0;
    loop {
        let mut drained = false;
        loop {
            match sched.take() {
                Step::Run(i) => {
                    events.push(format!("start:{}", sched.name(i)));
                    running.push(i);
                    max_inflight = max_inflight.max(running.len());
                }
                Step::Wait => break,
                Step::Drained => {
                    drained = true;
                    break;
                }
            }
        }
        if running.is_empty() {
            assert!(drained, "a worker waits for nothing");
            break;
        }
        let i = running.remove(0);
        let name = sched.name(i).clone();
        let outcome = job(&name);
        if outcome.is_ok() {
            events.push(format!("end:{name}"));
        }
        sched.finish(i, outcome);
    }
    Run { events, max_inflight, outcome: sched.outcome() }
}

#[test]
fn ready_set_wakes_dependents_on_completion() {
    let g = graph(&[("a", &[]), ("b", &["a"]), ("c", &["a"]), ("d", &["b", "c"])]);
    let run = run_ready_set(&g, &[], 3, |_| Ok(()));
    assert!(run.outcome.is_ok(), "diamond builds clean");
    assert!(run.max_inflight >= 2, "ready siblings must overlap: {:?}", run.events);
    let d_start = run.position("start:d");
    assert!(run.position("end:b") < d_start, "{:?}", run.events);
    assert!(run.position("end:c") < d_start, "{:?}", run.events);
}

#[test]
fn ready_set_orders_linear_chain() {
    let g = graph(&[("a", &[]), ("b", &["a"]), ("c", &["b"])]);
    let run = run_ready_set(&g, &[], 3, |_| Ok(()));
    assert!(run.outcome.is_ok(), "chain builds clean");
    assert!(run.position("end:a") < run.position("start:b"));
    assert!(run.position("end:b") < run.position("start:c"));
}

#[test]
fn worker_cap_bounds_concurrency() {
    let g = graph(&[
        ("j1", &[]),
        ("j2", &[]),
        ("j3", &[]),
        ("j4", &[]),
        ("j5", &[]),
        ("j6", &[]),
    ]);
    let run = run_ready_set(&g, &[], 2, |_| Ok(()));
    assert!(run.outcome.is_ok(), "independent jobs build clean");
    assert_eq!(run.max_inflight, 2);
}

#[test]
fn failure_never_starts_dependents() {
    let g = graph(&[("a", &[]), ("b", &["a"]), ("c", &["b"]), ("solo", &[])]);
    let run = run_ready_set(&g, &[], 3, |name| {
        if name == "a" {
            return Err("a exploded".to_string());
        }
        Ok(())
    });
    let err = run.outcome.expect_err("failed root must fail the run");
    assert_eq!(err.failed, vec![("a".to_string(), "a exploded".to_string())]);
    let events = run.events;
    assert!(!events.iter().any(|e| e == "start:b"), "{events:?}");
    assert!(!events.iter().any(|e| e == "start:c"), "{events:?}");
    assert!(events.iter().any(|e| e == "end:solo"), "{events:?}");
    assert_eq!(err.skipped, vec!["b".to_string(), "c".to_string()]);
}

#[test]
fn failure_stops_unstarted_ready_work() {
    let g = graph(&[("j1", &[]), ("j2", &[]), ("j3", &[]), ("j4", &[])]);
    let run = run_ready_set(&g, &[], 1, |name| {
        if name == "j1" {
            return Err("j1 exploded".to_string());
        }
        Ok(())
    });
    let err = run.outcome.expect_err("first failure must fail the run");
    assert_eq!(err.failed.len(), 1);
    assert_eq!(err.skipped, vec!["j2", "j3", "j4"]);
    assert_eq!(run.events.iter().filter(|e| e.starts_with("start:")).count(), 1);
}

#[test]
fn pre_done_releases_dependents_immediately() {
    let g = graph(&[("a", &[]), ("b", &["a"]), ("c", &["b"])]);
    let run = run_ready_set(&g, &["a", "b"], 3, |_| Ok(()));
    assert!(run.outcome.is_ok(), "pre-done cascade builds clean");
    assert_eq!(run.events, vec!["start:c".to_string(), "end:c".to_string()]);
}

#[test]
fn unknown_and_self_edges_are_dropped_and_cycles_are_named() {
    let g = graph(&[("a", &["a", "ghost", "a", "b"]), ("b", &["b", "a"])]);
    let run = run_ready_set(&g, &[], 2, |_| Ok(()));
    let err = run.outcome.expect_err("a cycle cannot be scheduled");
    assert!(err.failed.is_empty());
    assert_eq!(err.skipped, vec!["a".to_string(), "b".to_string()]);
}

#[test]
fn worker_counts_are_bounded() {
    assert_eq!(MAX_PARALLEL_BUILD_WORKERS, 3);
    assert_eq!(worker_count(3, 10), 3);
    assert_eq!(worker_count(3, 2), 2);
    assert_eq!(worker_count(0, 5), 1);
}
