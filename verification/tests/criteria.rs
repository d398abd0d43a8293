use pgreap::criteria::{evaluate, find_matches, Backend, Criteria, Reason};
use pgreap::seconds::Seconds;

fn secs(value: f64) -> Seconds {
    Seconds::from_bits(value.to_bits())
}

fn backend(state: &str, state_secs: f64, query_secs: f64) -> Backend {
    Backend {
        pid: 100,
        user: "app".to_string(),
        database: "appdb".to_string(),
        application_name: "worker".to_string(),
        state: state.to_string(),
        state_secs: secs(state_secs),
        query_secs: secs(query_secs),
        query: "UPDATE accounts SET balance = 1".to_string(),
    }
}

fn default_criteria() -> Criteria {
    Criteria {
        idle_tx_seconds: Some(secs(60.0)),
        query_seconds: None,
        database: None,
        user: None,
        exclude_pids: Vec::new(),
    }
}

#[test]
fn flags_idle_in_transaction_past_threshold() {
    let b = backend("idle in transaction", 61.0, 0.0);
    let reason = evaluate(&b, &default_criteria());
    assert_eq!(reason, Some(Reason::IdleInTransaction { for_secs: secs(61.0) }));
}

#[test]
fn exactly_at_threshold_is_flagged_inclusive() {
    let b = backend("idle in transaction", 60.0, 0.0);
    assert!(evaluate(&b, &default_criteria()).is_some());
}

#[test]
fn just_under_threshold_is_not_flagged() {
    let b = backend("idle in transaction", 59.9, 0.0);
    assert!(evaluate(&b, &default_criteria()).is_none());
}

#[test]
fn aborted_idle_in_transaction_counts_too() {
    let b = backend("idle in transaction (aborted)", 100.0, 0.0);
    assert!(evaluate(&b, &default_criteria()).is_some());
}

#[test]
fn plain_idle_is_never_flagged_by_idle_tx_rule() {
    // Plain `idle` (no open transaction) holds no locks and pins
    // nothing: reaping it would just be closing an idle pool
    // connection for no reason.
    let b = backend("idle", 10_000.0, 0.0);
    assert!(evaluate(&b, &default_criteria()).is_none());
}

#[test]
fn active_query_not_flagged_unless_query_threshold_set() {
    let b = backend("active", 0.0, 10_000.0);
    assert!(evaluate(&b, &default_criteria()).is_none());
}

#[test]
fn active_query_flagged_once_threshold_set_and_exceeded() {
    let mut c = default_criteria();
    c.query_seconds = Some(secs(300.0));
    let b = backend("active", 0.0, 301.0);
    assert_eq!(
        evaluate(&b, &c),
        Some(Reason::LongRunningQuery { for_secs: secs(301.0) })
    );
}

#[test]
fn active_query_under_threshold_not_flagged() {
    let mut c = default_criteria();
    c.query_seconds = Some(secs(300.0));
    let b = backend("active", 0.0, 299.0);
    assert!(evaluate(&b, &c).is_none());
}

#[test]
fn excluded_pid_is_never_flagged() {
    let mut c = default_criteria();
    c.exclude_pids.push(100);
    let b = backend("idle in transaction", 1000.0, 0.0);
    assert!(evaluate(&b, &c).is_none());
}

#[test]
fn database_filter_excludes_other_databases() {
    let mut c = default_criteria();
    c.database = Some("otherdb".to_string());
    let b = backend("idle in transaction", 1000.0, 0.0);
    assert!(evaluate(&b, &c).is_none());
}

#[test]
fn database_filter_matches_correct_database() {
    let mut c = default_criteria();
    c.database = Some("appdb".to_string());
    let b = backend("idle in transaction", 1000.0, 0.0);
    assert!(evaluate(&b, &c).is_some());
}

#[test]
fn user_filter_excludes_other_users() {
    let mut c = default_criteria();
    c.user = Some("someone_else".to_string());
    let b = backend("idle in transaction", 1000.0, 0.0);
    assert!(evaluate(&b, &c).is_none());
}

#[test]
fn idle_tx_disabled_when_threshold_is_none() {
    let mut c = default_criteria();
    c.idle_tx_seconds = None;
    let b = backend("idle in transaction", 999_999.0, 0.0);
    assert!(evaluate(&b, &c).is_none());
}

#[test]
fn idle_in_transaction_takes_priority_over_long_running_query() {
    // A backend can't really be both `active` and `idle in
    // transaction` at once, but the priority rule is still worth
    // pinning down: idle-in-transaction is checked first.
    let mut c = default_criteria();
    c.query_seconds = Some(secs(1.0));
    let mut b = backend("idle in transaction", 1000.0, 1000.0);
    b.state = "idle in transaction".to_string();
    assert_eq!(
        evaluate(&b, &c),
        Some(Reason::IdleInTransaction { for_secs: secs(1000.0) })
    );
}

#[test]
fn reason_label_and_for_secs() {
    let r = Reason::IdleInTransaction { for_secs: secs(42.0) };
    assert_eq!(r.label(), "idle in transaction");
    assert_eq!(r.for_secs(), secs(42.0));
    let r = Reason::LongRunningQuery { for_secs: secs(7.0) };
    assert_eq!(r.label(), "long-running query");
    assert_eq!(r.for_secs(), secs(7.0));
}

#[test]
fn user_filter_matches_correct_user() {
    let mut c = default_criteria();
    c.user = Some("app".to_string());
    let b = backend("idle in transaction", 1000.0, 0.0);
    assert!(evaluate(&b, &c).is_some());
}

#[test]
fn query_exactly_at_threshold_is_flagged() {
    let mut c = default_criteria();
    c.query_seconds = Some(secs(300.0));
    let b = backend("active", 0.0, 300.0);
    assert_eq!(
        evaluate(&b, &c),
        Some(Reason::LongRunningQuery { for_secs: secs(300.0) })
    );
}

#[test]
fn zero_threshold_flags_fresh_transactions() {
    let mut c = default_criteria();
    c.idle_tx_seconds = Some(secs(0.0));
    assert!(evaluate(&backend("idle in transaction", 0.0, 0.0), &c).is_some());
    assert!(evaluate(&backend("idle in transaction", -0.0, 0.0), &c).is_some());
    assert!(evaluate(&backend("idle in transaction", -0.001, 0.0), &c).is_none());
}

#[test]
fn unreachable_thresholds_flag_nothing() {
    let b = backend("idle in transaction", 1e300, 0.0);
    for threshold in [f64::INFINITY, f64::NAN, 1.1e300] {
        let mut c = default_criteria();
        c.idle_tx_seconds = Some(secs(threshold));
        assert!(evaluate(&b, &c).is_none());
    }
}

#[test]
fn states_are_compared_whole() {
    for state in ["", "idle", "Active", "active ", "idle in transaction (abort)", "disabled"] {
        let mut c = default_criteria();
        c.query_seconds = Some(secs(0.0));
        let b = backend(state, 1e9, 1e9);
        assert!(!b.is_idle_in_transaction());
        assert!(!b.is_active());
        assert!(evaluate(&b, &c).is_none());
    }
    assert!(backend("active", 0.0, 0.0).is_active());
    assert!(backend("idle in transaction", 0.0, 0.0).is_idle_in_transaction());
    assert!(backend("idle in transaction (aborted)", 0.0, 0.0).is_idle_in_transaction());
}

#[test]
fn raising_a_threshold_only_takes_matches_away() {
    let b = backend("idle in transaction", 100.0, 0.0);
    let mut c = default_criteria();
    let mut flagged = true;
    for threshold in [0.0, 50.0, 99.9, 100.0, 100.1, 1000.0] {
        c.idle_tx_seconds = Some(secs(threshold));
        let now = evaluate(&b, &c).is_some();
        assert!(flagged || !now);
        assert_eq!(now, threshold <= 100.0);
        flagged = now;
    }
}

#[test]
fn a_match_is_a_match_only_once_and_in_order() {
    let mut c = default_criteria();
    c.query_seconds = Some(secs(10.0));
    c.exclude_pids = vec![4];
    let mut backends = Vec::new();
    for (pid, state) in [
        (1, "idle in transaction"),
        (2, "idle"),
        (3, "active"),
        (4, "active"),
        (5, "idle in transaction (aborted)"),
    ] {
        let mut b = backend(state, 70.0, 20.0);
        b.pid = pid;
        backends.push(b);
    }
    let found = find_matches(backends.clone(), &c);
    assert_eq!(
        found,
        vec![
            (backends[0].clone(), Reason::IdleInTransaction { for_secs: secs(70.0) }),
            (backends[2].clone(), Reason::LongRunningQuery { for_secs: secs(20.0) }),
            (backends[4].clone(), Reason::IdleInTransaction { for_secs: secs(70.0) }),
        ]
    );
}

#[test]
fn default_backend_is_empty() {
    let b = Backend::default();
    assert_eq!(b.pid, 0);
    assert_eq!(b.user, "");
    assert_eq!(b.database, "");
    assert_eq!(b.application_name, "");
    assert_eq!(b.state, "");
    assert_eq!(b.state_secs, secs(0.0));
    assert_eq!(b.query_secs, secs(0.0));
    assert_eq!(b.query, "");
}

#[test]
fn narrowing_filters_keep_the_reason() {
    let b = backend("idle in transaction", 1000.0, 0.0);
    let wide = evaluate(&b, &default_criteria());
    let mut narrow = default_criteria();
    narrow.database = Some("appdb".to_string());
    narrow.user = Some("app".to_string());
    narrow.exclude_pids = vec![99, 101];
    assert_eq!(evaluate(&b, &narrow), wide);
    narrow.exclude_pids.push(100);
    assert_eq!(evaluate(&b, &narrow), None);
}

#[test]
fn open_and_aborted_transactions_are_flagged_alike() {
    for age in [0.0, 59.9, 60.0, 61.0] {
        assert_eq!(
            evaluate(&backend("idle in transaction", age, 0.0), &default_criteria()),
            evaluate(&backend("idle in transaction (aborted)", age, 0.0), &default_criteria())
        );
    }
}

#[test]
fn application_and_query_do_not_matter() {
    let b = backend("idle in transaction", 1000.0, 0.0);
    let mut other = b.clone();
    other.application_name = "psql".to_string();
    other.query = String::new();
    assert_eq!(evaluate(&other, &default_criteria()), evaluate(&b, &default_criteria()));
}

#[test]
fn two_polls_give_the_matches_of_each() {
    let first = vec![backend("idle in transaction", 61.0, 0.0), backend("idle", 99.0, 0.0)];
    let second = vec![backend("active", 1.0, 1.0), backend("idle in transaction", 62.0, 0.0)];
    let both: Vec<Backend> = first.iter().chain(second.iter()).cloned().collect();
    let mut expected = find_matches(first, &default_criteria());
    expected.extend(find_matches(second, &default_criteria()));
    assert_eq!(expected.len(), 2);
    assert_eq!(find_matches(both, &default_criteria()), expected);
}
