use pgreap::clock::{read, Reading};
use pgreap::criteria::{Backend, Reason};
use pgreap::report::{format_secs, query_can_be_shown, render_dry_run, render_execute};
use pgreap::seconds::Seconds;

fn secs(value: f64) -> Seconds {
    Seconds::from_bits(value.to_bits())
}

fn backend(pid: i32) -> Backend {
    Backend {
        pid,
        user: "app".to_string(),
        database: "appdb".to_string(),
        application_name: "worker".to_string(),
        state: "idle in transaction".to_string(),
        state_secs: secs(125.4),
        query_secs: secs(0.0),
        query: "UPDATE accounts SET balance = balance - 1 WHERE id = 1".to_string(),
    }
}

#[test]
fn format_secs_sub_minute() {
    assert_eq!(format_secs(secs(0.0)), "0.0s");
    assert_eq!(format_secs(secs(59.9)), "59.9s");
}

#[test]
fn format_secs_minutes() {
    assert_eq!(format_secs(secs(60.0)), "1m00s");
    assert_eq!(format_secs(secs(125.0)), "2m05s");
}

#[test]
fn format_secs_hours() {
    assert_eq!(format_secs(secs(3725.0)), "1h02m");
}

#[test]
fn format_secs_clamps_negative() {
    assert_eq!(format_secs(secs(-5.0)), "0.0s");
}

#[test]
fn dry_run_empty_is_a_clean_message() {
    assert_eq!(render_dry_run(&[]), "no backends match the reap criteria\n");
}

#[test]
fn dry_run_lists_every_match() {
    let m = vec![
        (backend(101), Reason::IdleInTransaction { for_secs: secs(125.4) }),
        (backend(102), Reason::LongRunningQuery { for_secs: secs(61.0) }),
    ];
    let rendered = render_dry_run(&m);
    assert!(rendered.contains("2 backend(s)"));
    assert!(rendered.contains("pid 101"));
    assert!(rendered.contains("pid 102"));
    assert!(rendered.contains("dry run"));
}

#[test]
fn dry_run_truncates_long_query_text() {
    let mut b = backend(101);
    b.query = "x".repeat(200);
    let rendered = render_dry_run(&[(b, Reason::IdleInTransaction { for_secs: secs(1.0) })]);
    assert!(rendered.contains("..."));
    // Truncated to 77 chars + "...", never the full 200-char query.
    assert!(!rendered.contains(&"x".repeat(200)));
}

#[test]
fn dry_run_flattens_multiline_query() {
    let mut b = backend(101);
    b.query = "BEGIN;\nUPDATE t SET x = 1;".to_string();
    let rendered = render_dry_run(&[(b, Reason::IdleInTransaction { for_secs: secs(1.0) })]);
    // The query itself must be one physical line even though the
    // rendered report as a whole still has multiple lines.
    let query_line = rendered.lines().nth(1).unwrap();
    assert!(query_line.contains("BEGIN; UPDATE t SET x = 1;"));
}

#[test]
fn execute_empty_says_nothing_to_terminate() {
    assert_eq!(
        render_execute(&[]),
        "no backends matched the reap criteria — nothing to terminate\n"
    );
}

#[test]
fn execute_reports_terminated_and_already_gone() {
    let results = vec![
        (
            backend(101),
            Reason::IdleInTransaction { for_secs: secs(125.4) },
            true,
        ),
        (
            backend(102),
            Reason::IdleInTransaction { for_secs: secs(500.0) },
            false,
        ),
    ];
    let rendered = render_execute(&results);
    assert!(rendered.contains("-> terminated"));
    assert!(rendered.contains("-> already gone"));
    assert!(rendered.contains("1/2 backend(s) actually terminated"));
}

#[test]
fn execute_all_terminated_counts_correctly() {
    let results = vec![(
        backend(101),
        Reason::IdleInTransaction { for_secs: secs(10.0) },
        true,
    )];
    let rendered = render_execute(&results);
    assert!(rendered.contains("1/1 backend(s) actually terminated"));
}

#[test]
fn a_whole_dry_run_report() {
    let mut b = backend(128624);
    b.application_name = "psql".to_string();
    b.user = "postgres".to_string();
    b.database = "pgreap_test".to_string();
    b.query = "SELECT 1;".to_string();
    let rendered = render_dry_run(&[(b, Reason::IdleInTransaction { for_secs: secs(10.1) })]);
    assert_eq!(
        rendered,
        "1 backend(s) match the reap criteria (dry run — nothing terminated; pass --execute to act):\n  pid 128624   psql                 postgres/pgreap_test  idle in transaction for 10.1s    SELECT 1;\n"
    );
}

#[test]
fn a_whole_execute_report() {
    let mut b = backend(-7);
    b.query = "SELECT 1;".to_string();
    let reason = Reason::LongRunningQuery { for_secs: secs(3725.0) };
    let rendered = render_execute(&[(b.clone(), reason, true), (b, reason, false)]);
    assert_eq!(
        rendered,
        "2 backend(s) matched; terminating:\n  pid -7       worker               app/appdb        long-running query for 1h02m    SELECT 1;  -> terminated\n  pid -7       worker               app/appdb        long-running query for 1h02m    SELECT 1;  -> already gone (no signal sent)\n\n1/2 backend(s) actually terminated\n"
    );
}

#[test]
fn columns_are_counted_in_characters() {
    let mut b = backend(i32::MIN);
    b.application_name = "ärger".to_string();
    b.database = "a database of some length".to_string();
    b.query = String::new();
    let rendered = render_dry_run(&[(b, Reason::LongRunningQuery { for_secs: secs(0.25) })]);
    let line = rendered.lines().nth(1).unwrap();
    assert_eq!(
        line,
        format!(
            "  pid {:<8} {:<20} {}/{:<12} {:<10} for {:<8} {}",
            i32::MIN, "ärger", "app", "a database of some length", "long-running query", "0.2s", ""
        )
    );
}

#[test]
fn queries_of_eighty_bytes_are_whole() {
    let reason = Reason::IdleInTransaction { for_secs: secs(1.0) };
    let mut b = backend(101);
    b.query = "x".repeat(80);
    let rendered = render_dry_run(&[(b.clone(), reason)]);
    assert!(rendered.ends_with(&format!(" {}\n", "x".repeat(80))));
    b.query = "x".repeat(81);
    let rendered = render_dry_run(&[(b, reason)]);
    assert!(rendered.ends_with(&format!(" {}...\n", "x".repeat(77))));
}

#[test]
fn a_cut_must_not_split_a_character() {
    assert!(query_can_be_shown(""));
    assert!(query_can_be_shown(&"x".repeat(500)));
    assert!(query_can_be_shown(&"ä".repeat(40)));
    assert!(!query_can_be_shown(&"ä".repeat(41)));
    let odd = format!("x{}", "ä".repeat(41));
    assert!(query_can_be_shown(&odd));
    let mut b = backend(101);
    b.query = odd;
    let rendered = render_dry_run(&[(b, Reason::IdleInTransaction { for_secs: secs(1.0) })]);
    assert!(rendered.ends_with(&format!(" x{}...\n", "ä".repeat(38))));
}

#[test]
fn execute_shows_the_lines_of_the_dry_run() {
    let reason = Reason::IdleInTransaction { for_secs: secs(125.4) };
    let found = vec![(backend(101), reason), (backend(102), reason)];
    let dry = render_dry_run(&found);
    let results = vec![(backend(101), reason, true), (backend(102), reason, false)];
    let done = render_execute(&results);
    for (i, outcome) in ["  -> terminated", "  -> already gone (no signal sent)"].iter().enumerate() {
        let line = dry.lines().nth(i + 1).unwrap();
        assert_eq!(done.lines().nth(i + 1).unwrap(), format!("{}{}", line, outcome));
    }
}

#[test]
fn format_secs_rounds_to_tenths() {
    assert_eq!(format_secs(secs(0.04)), "0.0s");
    assert_eq!(format_secs(secs(0.25)), "0.2s");
    assert_eq!(format_secs(secs(0.75)), "0.8s");
    assert_eq!(format_secs(secs(3.1)), "3.1s");
    assert_eq!(format_secs(secs(17.8)), "17.8s");
    assert_eq!(format_secs(secs(59.97)), "60.0s");
    assert_eq!(format_secs(secs(5e-324)), "0.0s");
    assert_eq!(read(secs(59.97)), Reading::Tenths { tenths: 600 });
}

#[test]
fn format_secs_at_the_bounds() {
    assert_eq!(format_secs(secs(125.4)), "2m05s");
    assert_eq!(format_secs(secs(119.99999999999999)), "1m59s");
    assert_eq!(format_secs(secs(3599.9999999999995)), "59m59s");
    assert_eq!(format_secs(secs(3600.0)), "1h00m");
    assert_eq!(format_secs(secs(360000.0)), "100h00m");
    assert_eq!(format_secs(secs(9007199254740991.0)), "2501999792983h36m");
    assert_eq!(format_secs(secs(144115188075855856.0)), "40031996687737h44m");
    // Too long ago for the minutes to be right: they would be 04.
    assert_eq!(format_secs(secs(144115188075860640.0)), "40031996687739h03m");
    assert_eq!(read(secs(3725.0)), Reading::Hours { hours: 1, minutes: 2 });
    assert_eq!(read(secs(125.4)), Reading::Minutes { minutes: 2, seconds: 5 });
}

#[test]
fn format_secs_of_what_is_no_duration() {
    assert_eq!(format_secs(secs(-0.0)), "0.0s");
    assert_eq!(format_secs(secs(f64::NAN)), "0.0s");
    assert_eq!(format_secs(secs(f64::NEG_INFINITY)), "0.0s");
    let all = "18446744073709551615h18446744073709551615m";
    assert_eq!(format_secs(secs(f64::INFINITY)), all);
    assert_eq!(format_secs(secs(1e300)), all);
}

/// The same text by way of the machine's own arithmetic.
fn by_machine(value: f64) -> String {
    let value = value.max(0.0);
    if value < 60.0 {
        format!("{value:.1}s")
    } else if value < 3600.0 {
        let m = (value / 60.0) as u64;
        let s = (value - (m as f64 * 60.0)) as u64;
        format!("{m}m{s:02}s")
    } else {
        let h = (value / 3600.0) as u64;
        let m = ((value - (h as f64 * 3600.0)) / 60.0) as u64;
        format!("{h}h{m:02}m")
    }
}

#[test]
fn format_secs_agrees_with_the_machine() {
    let mut x: u64 = 0x0123_4567_89AB_CDEF;
    for i in 0..200_000u64 {
        x = x.wrapping_mul(6364136223846793005).wrapping_add(1442695040888963407);
        let fraction = x >> 12;
        let exponents = [0, 1, 900, 1000, 1012, 1020, 1024, 1027, 1028, 1030, 1033, 1034, 1035];
        let narrow = exponents[(i % 13) as usize];
        // All of the range in which digits are lost, and some beyond it.
        let wide = 1028 + (i / 13) % 80;
        for exponent in [narrow, wide, (x >> 1) % 2047] {
            let value = f64::from_bits(exponent << 52 | fraction);
            assert_eq!(format_secs(secs(value)), by_machine(value));
        }
        // Around whole minutes and hours.
        let whole = (x % 1_000_000) as f64 * 60.0;
        for step in 0..5u64 {
            let value = f64::from_bits(whole.to_bits().wrapping_add(step).wrapping_sub(2));
            if value >= 0.0 {
                assert_eq!(format_secs(secs(value)), by_machine(value));
            }
        }
        // Ties between two tenths.
        let tie = (i % 240) as f64 / 4.0;
        assert_eq!(format_secs(secs(tie)), by_machine(tie));
    }
}

#[test]
fn a_shown_query_is_one_short_line() {
    for query in ["\n".repeat(300), "SELECT\n1\n".repeat(20), "a\r\nb".to_string()] {
        let mut b = backend(101);
        b.query = query;
        let rendered = render_dry_run(&[(b, Reason::IdleInTransaction { for_secs: secs(1.0) })]);
        assert_eq!(rendered.matches('\n').count(), 2);
        let line = rendered.split('\n').nth(1).unwrap();
        let shown = line.splitn(2, "1.0s     ").nth(1).unwrap();
        assert!(shown.len() <= 80);
    }
}

#[test]
fn nothing_terminated_counts_zero() {
    let reason = Reason::IdleInTransaction { for_secs: secs(10.0) };
    let results: Vec<(Backend, Reason, bool)> =
        (0..12).map(|pid| (backend(pid), reason, false)).collect();
    let rendered = render_execute(&results);
    assert!(rendered.starts_with("12 backend(s) matched; terminating:\n"));
    assert!(rendered.ends_with("\n0/12 backend(s) actually terminated\n"));
}

#[test]
fn flattening_a_query_beforehand_changes_nothing() {
    let reason = Reason::LongRunningQuery { for_secs: secs(61.0) };
    for query in [
        "BEGIN;\nUPDATE t SET x = 1;".to_string(),
        "\n\n".to_string(),
        "SELECT\n1\n".repeat(20),
        format!("{}\n", "x".repeat(79)),
        format!("{}\n", "x".repeat(80)),
    ] {
        let mut b = backend(101);
        b.query = query.clone();
        let mut flat = backend(101);
        flat.query = query.replace('\n', " ");
        assert_eq!(render_dry_run(&[(flat, reason)]), render_dry_run(&[(b, reason)]));
    }
    let split = format!("{}{}", "\n".repeat(76), "ä".repeat(3));
    assert!(!query_can_be_shown(&split));
    assert!(!query_can_be_shown(&split.replace('\n', " ")));
}

#[test]
fn a_line_shows_the_reason_and_not_the_backend_state() {
    let reason = Reason::LongRunningQuery { for_secs: secs(3725.0) };
    let mut other = backend(101);
    other.state = "active".to_string();
    other.state_secs = secs(1.0);
    other.query_secs = secs(f64::NAN);
    let rendered = render_dry_run(&[(other, reason)]);
    assert_eq!(rendered, render_dry_run(&[(backend(101), reason)]));
    assert!(rendered.contains("long-running query for 1h02m"));
}

#[test]
fn a_dry_run_has_one_line_per_match() {
    assert_eq!(render_dry_run(&[]).matches('\n').count(), 1);
    let reason = Reason::IdleInTransaction { for_secs: secs(10.0) };
    for n in 1..5 {
        let found: Vec<(Backend, Reason)> = (0..n).map(|pid| (backend(pid), reason)).collect();
        assert_eq!(render_dry_run(&found).matches('\n').count(), 1 + n as usize);
    }
}
