use batchlapse::jobs::ActiveJobState;

#[test]
fn one_job_runs_at_a_time() {
    let mut state = ActiveJobState::default();
    assert!(!state.is_busy());
    assert_eq!(state.active_job_id(), None);
    assert_eq!(state.start("a".to_string()), Ok(()));
    assert!(state.is_busy());
    assert_eq!(state.start("b".to_string()), Err("Another export is already running.".to_string()));
    assert_eq!(state.active_job_id(), Some("a".to_string()));
    assert!(!state.finish("a"));
    assert_eq!(state.start("b".to_string()), Ok(()));
    assert_eq!(state.active_job_id(), Some("b".to_string()));
}

#[test]
fn canceling_returns_the_worker_and_lasts() {
    let mut state = ActiveJobState::new();
    assert_eq!(state.request_cancel(), Err("No active export to cancel.".to_string()));
    state.start("a".to_string()).unwrap();
    assert_eq!(state.request_cancel(), Ok(None));
    state.set_pid("a", 42);
    assert_eq!(state.request_cancel(), Ok(Some(42)));
    state.clear_pid("a");
    assert_eq!(state.request_cancel(), Ok(None));
    assert!(state.is_canceled("a"));
    assert!(state.finish("a"));
    assert!(!state.is_busy());
    assert!(!state.finish("a"));
}

#[test]
fn job_without_request_is_not_canceled() {
    let mut state = ActiveJobState::new();
    state.start("a".to_string()).unwrap();
    state.set_pid("a", 1);
    assert!(!state.is_canceled("a"));
    assert!(!state.finish("a"));
    assert!(state.is_canceled("a"));
}

#[test]
fn other_jobs_do_not_matter() {
    let mut state = ActiveJobState::new();
    state.start("a".to_string()).unwrap();
    state.set_pid("b", 9);
    assert!(state.is_canceled("b"));
    assert!(!state.finish("b"));
    assert_eq!(state.request_cancel(), Ok(None));
    assert_eq!(state.active_job_id(), Some("a".to_string()));
}

#[test]
fn fresh_jobs_have_random_names() {
    let mut state = ActiveJobState::new();
    let first = state.start_fresh().unwrap();
    assert_eq!(state.active_job_id(), Some(first.clone()));
    assert_eq!(state.start_fresh(), Err("Another export is already running.".to_string()));
    assert_eq!(state.active_job_id(), Some(first.clone()));
    state.finish(&first);
    let second = state.start_fresh().unwrap();
    assert_ne!(first, second);
    for id in [first, second] {
        assert_eq!(id.len(), 36);
        for (i, c) in id.chars().enumerate() {
            if i == 8 || i == 13 || i == 18 || i == 23 {
                assert_eq!(c, '-');
            } else {
                assert!(c.is_ascii_digit() || ('a'..='f').contains(&c));
            }
        }
        assert_eq!(id.as_bytes()[14], b'4');
        assert!(b"89ab".contains(&id.as_bytes()[19]));
    }
}
