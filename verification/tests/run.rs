use pgreap::criteria::{Backend, Criteria};
use pgreap::report::{render_dry_run, render_execute};
use pgreap::run::{Action, Run};
use pgreap::seconds::Seconds;

fn secs(value: f64) -> Seconds {
    Seconds::from_bits(value.to_bits())
}

fn poll() -> Vec<Backend> {
    let mut backends = Vec::new();
    for (pid, state) in [
        (11, "idle in transaction"),
        (12, "idle"),
        (13, "active"),
        (14, "idle in transaction (aborted)"),
        (15, "idle in transaction"),
    ] {
        backends.push(Backend {
            pid,
            state: state.to_string(),
            state_secs: secs(90.0),
            query_secs: secs(90.0),
            query: "SELECT 1".to_string(),
            ..Backend::default()
        });
    }
    backends
}

fn criteria() -> Criteria {
    Criteria {
        idle_tx_seconds: Some(secs(60.0)),
        query_seconds: None,
        database: None,
        user: None,
        exclude_pids: vec![15],
    }
}

#[test]
fn a_dry_run_has_nothing_to_do_but_report() {
    let run = Run::start(poll(), &criteria(), false);
    assert_eq!(run.next_action(), Action::Report);
    assert!(run.is_reportable());
    let found = pgreap::criteria::find_matches(poll(), &criteria());
    assert_eq!(run.report(), render_dry_run(&found));
    assert!(run.report().starts_with("2 backend(s) match"));
}

#[test]
fn an_executed_run_terminates_each_match_once() {
    let mut run = Run::start(poll(), &criteria(), true);
    let mut pids = Vec::new();
    while let Action::Terminate { pid } = run.next_action() {
        pids.push(pid);
        run = run.record(pid == 11);
    }
    assert_eq!(pids, vec![11, 14]);
    assert!(run.is_reportable());
    let found = pgreap::criteria::find_matches(poll(), &criteria());
    let results = vec![
        (found[0].0.clone(), found[0].1, true),
        (found[1].0.clone(), found[1].1, false),
    ];
    assert_eq!(run.report(), render_execute(&results));
    assert!(run.report().ends_with("\n1/2 backend(s) actually terminated\n"));
}

#[test]
fn a_run_without_matches_reports_at_once() {
    let run = Run::start(Vec::new(), &criteria(), true);
    assert_eq!(run.next_action(), Action::Report);
    assert_eq!(
        run.report(),
        "no backends matched the reap criteria — nothing to terminate\n"
    );
    let run = Run::start(Vec::new(), &criteria(), false);
    assert_eq!(run.report(), "no backends match the reap criteria\n");
}

#[test]
fn a_polled_backend_that_is_excluded_is_left_alone() {
    let mut c = criteria();
    c.exclude_pids = vec![11, 14, 15];
    let run = Run::start(poll(), &c, true);
    assert_eq!(run.next_action(), Action::Report);
}

#[test]
fn a_run_says_when_its_report_would_split_a_character() {
    let mut backends = poll();
    backends[3].query = "ä".repeat(41);
    let run = Run::start(backends.clone(), &criteria(), false);
    assert!(!run.is_reportable());
    let run = Run::start(backends, &criteria(), true);
    assert!(!run.is_reportable());
    let run = run.record(true).record(true);
    assert_eq!(run.next_action(), Action::Report);
    assert!(!run.is_reportable());
}

#[test]
fn execute_acts_on_what_the_dry_run_lists() {
    let dry = Run::start(poll(), &criteria(), false).report();
    let mut run = Run::start(poll(), &criteria(), true);
    let mut listed = dry.lines().skip(1);
    while let Action::Terminate { pid } = run.next_action() {
        assert!(listed.next().unwrap().starts_with(&format!("  pid {} ", pid)));
        run = run.record(true);
    }
    assert!(listed.next().is_none());
}
