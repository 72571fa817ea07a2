use fast_file_sync::runs::{RunDescriptor, RunError, RunRegistry};

fn desc() -> RunDescriptor {
    RunDescriptor {
        job_id: ulid::Ulid::new().to_string(),
        pair_ids: Vec::new(),
    }
}

#[test]
fn single_run_at_a_time() {
    let mut reg = RunRegistry::new();
    let h1 = reg.try_start(desc()).expect("first start should win");

    match reg.try_start(desc()) {
        Err(RunError::Busy { run_id }) => assert_eq!(run_id, h1.run_id),
        Ok(_) => panic!("second start must be rejected while one is active"),
    }

    reg.finish(&h1.run_id);
    let h2 = reg.try_start(desc()).expect("start after finish should win");
    assert_ne!(h1.run_id, h2.run_id);
}

#[test]
fn finish_releases_slot() {
    let mut reg = RunRegistry::new();
    let h = reg.try_start(desc()).unwrap();
    assert_eq!(reg.active().as_deref(), Some(h.run_id.as_str()));
    reg.finish(&h.run_id);
    assert!(reg.active().is_none());
    assert!(reg.try_start(desc()).is_ok());
}

#[test]
fn cancel_is_per_run_not_global() {
    let mut reg = RunRegistry::new();
    let h = reg.try_start(desc()).unwrap();

    let other_id = ulid::Ulid::new().to_string();
    assert_ne!(other_id, h.run_id);
    let flipped = reg.cancel(&other_id);

    assert!(!flipped, "cancel of a non-active id must report no-op");
    assert!(!h.is_cancelled(), "the active run's token must not be flipped by another id");

    assert!(reg.cancel(&h.run_id));
    assert!(h.is_cancelled());
}

#[test]
fn cancel_unknown_run_is_noop() {
    let mut reg = RunRegistry::new();
    assert!(!reg.cancel("01ARZ3NDEKTSV4RRFFQ69G5FAV"));

    let h = reg.try_start(desc()).unwrap();
    assert!(!reg.cancel("01ARZ3NDEKTSV4RRFFQ69G5FAV"));
    assert!(!h.is_cancelled());
}

#[test]
fn preview_of_job_rejected_while_same_job_applying() {
    let mut reg = RunRegistry::new();
    let job_id = "01JOBBUSY0000000000000000001".to_string();

    let applying = reg
        .try_start(RunDescriptor {
            job_id: job_id.clone(),
            pair_ids: vec![],
        })
        .expect("apply claims the slot");

    match reg.try_start(RunDescriptor {
        job_id: job_id.clone(),
        pair_ids: vec![],
    }) {
        Err(RunError::Busy { run_id }) => {
            assert_eq!(run_id, applying.run_id, "Busy reports the active run id");
        }
        Ok(_) => panic!("a second run must be rejected while one is active"),
    }

    reg.finish(&applying.run_id);
    assert!(reg
        .try_start(RunDescriptor {
            job_id,
            pair_ids: vec![]
        })
        .is_ok());
}

#[test]
fn run_ids_are_ulid_shaped_and_context_reports_the_run() {
    let mut reg = RunRegistry::new();
    let d = RunDescriptor {
        job_id: "job-1".to_string(),
        pair_ids: vec!["p1".to_string(), "p2".to_string()],
    };
    let h = reg.try_start(d).unwrap();
    assert_eq!(h.run_id.chars().count(), 26);
    let ctx = reg.context(&h.run_id).expect("active run has a context");
    assert_eq!(ctx.run_id, h.run_id);
    assert_eq!(ctx.job_id, "job-1");
    assert_eq!(ctx.pair_ids, vec!["p1".to_string(), "p2".to_string()]);
    assert!(reg.context("nope").is_none());
    // The context's token is the handle's token.
    assert!(reg.cancel(&h.run_id));
    assert!(ctx.cancel.load(std::sync::atomic::Ordering::Relaxed));
    // Finishing another id leaves the slot held.
    reg.finish("nope");
    assert!(reg.active().is_some());
}

#[test]
fn handle_run_id_reaches_the_held_run() {
    let mut reg = RunRegistry::new();
    let d = RunDescriptor {
        job_id: "job-h".to_string(),
        pair_ids: vec!["p".to_string()],
    };
    let h = reg.try_start(d).unwrap();
    assert_eq!(h.run_id(), &h.run_id);
    assert_eq!(reg.active().as_deref(), Some(h.run_id().as_str()));
    let c = reg.context(h.run_id()).expect("the held run has a context");
    assert_eq!(&c.run_id, h.run_id());
    assert_eq!(c.job_id, "job-h");
    assert_eq!(c.pair_ids, vec!["p".to_string()]);
    assert!(reg.context("01ARZ3NDEKTSV4RRFFQ69G5FAV").is_none());
    assert!(reg.cancel(h.run_id()));
    assert!(c.cancel.load(std::sync::atomic::Ordering::Relaxed));
    assert!(h.cancel_token().load(std::sync::atomic::Ordering::Relaxed));
    reg.finish(h.run_id());
    assert!(reg.context(h.run_id()).is_none());
}
