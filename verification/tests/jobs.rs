use engram::jobs::{worker_tick, JobProcessor, NoopProcessor};
use engram::model::Error;
use engram::store::jobs::Job;
use engram::store::Store;

fn now() -> u64 {
    1_700_000_000_000_000
}


struct Failing;
impl JobProcessor for Failing {
    fn process(&self, _store: &mut Store, _job: &Job, _now: u64) -> Result<(), Error> {
        Err(Error::Llm("nope".into()))
    }
}

#[test]
fn tick_processes_pending_with_noop() {
    let mut store = Store::new();
    store.enqueue_job("alice", "d", now());
    assert!(worker_tick(&mut store, &NoopProcessor, 5, now())); // handled one
    assert_eq!(store.job("alice:d").unwrap().0, "done");
    assert!(!worker_tick(&mut store, &NoopProcessor, 5, now())); // nothing left
}

#[test]
fn tick_retries_then_fails() {
    let mut store = Store::new();
    store.enqueue_job("alice", "d", now());
    worker_tick(&mut store, &Failing, 2, now()); // attempts 1 → pending
    assert_eq!(
        store.job("alice:d").unwrap(),
        ("pending".into(), 1)
    );
    worker_tick(&mut store, &Failing, 2, now()); // attempts 2 → failed
    assert_eq!(store.job("alice:d").unwrap(), ("failed".into(), 2));
}


