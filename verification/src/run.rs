//! One run over one poll: what to do next, and what to report in the end.
//!
//! Whoever holds the connection performs the actions. A dry run has none but
//! the report.
use crate::criteria::{
    find_matches, matches_meet_the_criteria, reapable, verdict, Backend, Criteria, Reason,
};
use crate::report::{
    can_be_shown, dry_run_text, every_result_is_listed, execute_ends_with_the_counts, execute_text,
    match_line, query_can_be_shown, render_dry_run, render_execute, result_lines,
    terminated_count,
};
use crate::text::{decimal, holds};
use vstd::prelude::*;

verus! {

/// What to do next.
#[derive(Debug, Clone, Copy, PartialEq, Eq, Structural)]
pub enum Action {
    /// Terminate this backend, then record whether a signal was sent.
    Terminate { pid: i32 },
    /// Print the report; there is nothing more to do.
    Report,
}

/// A run on its way.
#[derive(Debug)]
pub enum Run {
    /// Lists its matches and touches nothing.
    DryRun { found: Vec<(Backend, Reason)> },
    /// Terminates its matches one by one.
    Execute { pending: Vec<(Backend, Reason)>, results: Vec<(Backend, Reason, bool)> },
}

fn all_can_be_shown(found: &Vec<(Backend, Reason)>) -> (b: bool)
    ensures
        b == forall|i: int|
            0 <= i < found@.len() ==> can_be_shown(#[trigger] found@[i].0.query@),
{
    let mut i: usize = 0;
    while i < found.len()
        invariant
            i <= found@.len(),
            forall|k: int| 0 <= k < i ==> can_be_shown(#[trigger] found@[k].0.query@),
        decreases found@.len() - i,
    {
        if !query_can_be_shown(found[i].0.query.as_str()) {
            return false;
        }
        i = i + 1;
    }
    true
}

impl Run {
    /// The matches that have been dealt with, with what became of them.
    pub open spec fn settled(self) -> Seq<(Backend, Reason, bool)> {
        match self {
            Run::DryRun { .. } => Seq::empty(),
            Run::Execute { results, .. } => results@,
        }
    }

    /// The matches that have not been dealt with.
    pub open spec fn outstanding(self) -> Seq<(Backend, Reason)> {
        match self {
            Run::DryRun { found } => found@,
            Run::Execute { pending, .. } => pending@,
        }
    }

    /// All matches of the run, in order.
    pub open spec fn matched(self) -> Seq<(Backend, Reason)> {
        self.settled().map_values(|r: (Backend, Reason, bool)| (r.0, r.1)) + self.outstanding()
    }

    /// What to do next.
    pub open spec fn action(self) -> Action {
        if self is Execute && self.outstanding().len() > 0 {
            Action::Terminate { pid: self.outstanding()[0].0.pid }
        } else {
            Action::Report
        }
    }

    /// The pids that the run is still going to terminate, in order.
    pub open spec fn to_terminate(self) -> Seq<i32> {
        if self is Execute {
            self.outstanding().map_values(|m: (Backend, Reason)| m.0.pid)
        } else {
            Seq::empty()
        }
    }

    /// The report of a run that has nothing else left to do.
    pub open spec fn report_text(self) -> Seq<char> {
        if self is Execute {
            execute_text(self.settled())
        } else {
            dry_run_text(self.outstanding())
        }
    }

    /// The queries of all matches can be shown.
    pub open spec fn can_be_reported(self) -> bool {
        forall|i: int|
            0 <= i < self.matched().len() ==> can_be_shown(#[trigger] self.matched()[i].0.query@)
    }

    /// Starts a run over a poll. Only with `execute` will it terminate anything.
    pub fn start(backends: Vec<Backend>, criteria: &Criteria, execute: bool) -> (run: Run)
        ensures
            run is Execute <==> execute,
            run.settled() == Seq::<(Backend, Reason, bool)>::empty(),
            run.outstanding() == reapable(backends@, *criteria),
            run.matched() == reapable(backends@, *criteria),
    {
        let found: Vec<(Backend, Reason)> = find_matches(backends, criteria);
        let run = if execute {
            Run::Execute { pending: found, results: Vec::new() }
        } else {
            Run::DryRun { found }
        };
        assert(run.matched() =~= run.outstanding());
        run
    }

    /// What to do next.
    pub fn next_action(&self) -> (action: Action)
        ensures
            action == self.action(),
    {
        match self {
            Run::DryRun { .. } => Action::Report,
            Run::Execute { pending, .. } => {
                if pending.len() > 0 {
                    Action::Terminate { pid: pending[0].0.pid }
                } else {
                    Action::Report
                }
            },
        }
    }

    /// Records whether a signal was sent to the backend that was next.
    pub fn record(self, ok: bool) -> (run: Run)
        requires
            self.action() is Terminate,
        ensures
            run is Execute,
            run.settled() == self.settled().push(
                (self.outstanding()[0].0, self.outstanding()[0].1, ok),
            ),
            run.outstanding() == self.outstanding().drop_first(),
            run.to_terminate() == self.to_terminate().drop_first(),
            run.matched() == self.matched(),
    {
        match self {
            Run::DryRun { found } => Run::DryRun { found },
            Run::Execute { pending, results } => {
                let mut pending = pending;
                let mut results = results;
                let next: (Backend, Reason) = pending.remove(0);
                results.push((next.0, next.1, ok));
                let run = Run::Execute { pending, results };
                assert(run.outstanding() =~= self.outstanding().drop_first());
                assert(run.to_terminate() =~= self.to_terminate().drop_first());
                assert(run.matched() =~= self.matched());
                run
            },
        }
    }

    /// Can the report be rendered, or does some query have a character where
    /// it would be cut?
    pub fn is_reportable(&self) -> (b: bool)
        ensures
            b == self.can_be_reported(),
    {
        match self {
            Run::DryRun { found } => {
                assert(self.matched() =~= found@);
                all_can_be_shown(found)
            },
            Run::Execute { pending, results } => {
                let mut i: usize = 0;
                while i < results.len()
                    invariant
                        i <= results@.len(),
                        self.settled() == results@,
                        forall|k: int|
                            0 <= k < i ==> can_be_shown(#[trigger] results@[k].0.query@),
                    decreases results@.len() - i,
                {
                    if !query_can_be_shown(results[i].0.query.as_str()) {
                        assert(self.matched()[i as int].0 == results@[i as int].0);
                        return false;
                    }
                    i = i + 1;
                }
                let rest: bool = all_can_be_shown(pending);
                proof {
                    let n = results@.len() as int;
                    if rest {
                        assert forall|k: int| 0 <= k < self.matched().len() implies can_be_shown(
                            #[trigger] self.matched()[k].0.query@,
                        ) by {
                            if k < n {
                                assert(self.matched()[k].0 == results@[k].0);
                            } else {
                                assert(self.matched()[k] == pending@[k - n]);
                            }
                        }
                    } else {
                        let k = choose|k: int|
                            0 <= k < pending@.len() && !can_be_shown(
                                #[trigger] pending@[k].0.query@,
                            );
                        assert(self.matched()[n + k] == pending@[k]);
                    }
                }
                rest
            },
        }
    }

    /// The report, once nothing else is left to do.
    pub fn report(&self) -> (text: String)
        requires
            self.action() is Report,
            self.can_be_reported(),
        ensures
            text@ == self.report_text(),
    {
        match self {
            Run::DryRun { found } => {
                assert(self.matched() =~= found@);
                render_dry_run(found.as_slice())
            },
            Run::Execute { results, .. } => {
                assert forall|i: int| 0 <= i < results@.len() implies can_be_shown(
                    #[trigger] results@[i].0.query@,
                ) by {
                    assert(self.matched()[i].0 == results@[i].0);
                }
                render_execute(results.as_slice())
            },
        }
    }
}

/// What a run has done, has before it and will do is in its fields: a dry run
/// has its matches before it and nothing done; a run that terminates has its
/// results behind it, its pending matches before it, and terminates the first of
/// these next, as long as there is one.
pub proof fn runs_go_by_their_fields(run: Run)
    ensures
        match run {
            Run::DryRun { found } => {
                &&& run.settled() == Seq::<(Backend, Reason, bool)>::empty()
                &&& run.outstanding() == found@
                &&& run.matched() == found@
                &&& run.action() == Action::Report
                &&& run.to_terminate() == Seq::<i32>::empty()
            },
            Run::Execute { pending, results } => {
                &&& run.settled() == results@
                &&& run.outstanding() == pending@
                &&& run.matched().len() == results@.len() + pending@.len()
                &&& forall|i: int|
                    0 <= i < results@.len() ==> (#[trigger] run.matched()[i]) == (
                        results@[i].0,
                        results@[i].1,
                    )
                &&& forall|i: int|
                    0 <= i < pending@.len() ==> #[trigger] run.matched()[results@.len() + i]
                        == pending@[i]
                &&& pending@.len() > 0 ==> run.action() == (Action::Terminate {
                    pid: pending@[0].0.pid,
                })
                &&& pending@.len() == 0 ==> run.action() == Action::Report
                &&& run.to_terminate().len() == pending@.len()
                &&& forall|i: int|
                    0 <= i < pending@.len() ==> #[trigger] run.to_terminate()[i]
                        == pending@[i].0.pid
            },
        },
{
    assert(run is DryRun ==> run.matched() =~= run.outstanding());
}

/// A run can be reported exactly where the query of every match can be shown,
/// be the match dealt with or not.
pub proof fn reports_need_every_query(run: Run)
    ensures
        run.can_be_reported() <==> {
            &&& forall|i: int|
                0 <= i < run.settled().len() ==> can_be_shown(
                    (#[trigger] run.settled()[i]).0.query@,
                )
            &&& forall|i: int|
                0 <= i < run.outstanding().len() ==> can_be_shown(
                    (#[trigger] run.outstanding()[i]).0.query@,
                )
        },
{
    let n = run.settled().len() as int;
    assert forall|i: int| 0 <= i < n implies run.matched()[i].0 == (#[trigger] run.settled()[i]).0
        by {}
    assert forall|i: int| 0 <= i < run.outstanding().len() implies run.matched()[n + i] == (
    #[trigger] run.outstanding()[i]) by {}
    if run.can_be_reported() {
        assert forall|i: int| 0 <= i < n implies can_be_shown(
            (#[trigger] run.settled()[i]).0.query@,
        ) by {
            assert(can_be_shown(run.matched()[i].0.query@));
        }
        assert forall|i: int| 0 <= i < run.outstanding().len() implies can_be_shown(
            (#[trigger] run.outstanding()[i]).0.query@,
        ) by {
            assert(can_be_shown(run.matched()[n + i].0.query@));
        }
    } else {
        let k = choose|k: int|
            0 <= k < run.matched().len() && !can_be_shown(#[trigger] run.matched()[k].0.query@);
        if k < n {
            assert(run.matched()[k].0 == run.settled()[k].0);
        } else {
            assert(run.matched()[k] == run.outstanding()[k - n]);
        }
    }
}

/// A run that terminates reports, once it is through, each of its matches with
/// what became of it, and ends with how many of all its matches were terminated.
pub proof fn finished_run_reports_every_outcome(run: Run, i: int)
    requires
        run is Execute,
        run.action() is Report,
        0 <= i < run.matched().len(),
    ensures
        run.settled().len() == run.matched().len(),
        run.matched()[i] == (run.settled()[i].0, run.settled()[i].1),
        run.settled()[i].2 ==> holds(
            run.report_text(),
            match_line(run.matched()[i].0, run.matched()[i].1) + "  -> terminated\n"@,
        ),
        !run.settled()[i].2 ==> holds(
            run.report_text(),
            match_line(run.matched()[i].0, run.matched()[i].1)
                + "  -> already gone (no signal sent)\n"@,
        ),
        ({
            let head = decimal(run.matched().len()) + " backend(s) matched; terminating:\n"@;
            let last = "\n"@ + decimal(terminated_count(run.settled())) + "/"@ + decimal(
                run.matched().len(),
            ) + " backend(s) actually terminated\n"@;
            let text = run.report_text();
            &&& text.len() >= head.len() + last.len()
            &&& text.take(head.len() as int) == head
            &&& text.skip(text.len() - last.len()) == last
            &&& text.subrange(head.len() as int, text.len() - last.len()) == result_lines(
                run.settled(),
            )
        }),
{
    every_match_is_terminated_once(run);
    every_result_is_listed(run.settled(), i);
    execute_ends_with_the_counts(run.settled());
    let text = run.report_text();
    let count = decimal(run.matched().len());
    let words = " backend(s) matched; terminating:\n"@;
    let n = count.len() as int;
    assert(text.take(n + words.len()) =~= text.take(n) + text.subrange(n, n + words.len()));
}

/// A run that terminates and had no matches says so, and so does a dry run.
pub proof fn runs_without_matches_say_so(run: Run)
    requires
        run.matched().len() == 0,
    ensures
        run is Execute ==> run.report_text()
            == "no backends matched the reap criteria — nothing to terminate\n"@,
        run is DryRun ==> run.report_text() == "no backends match the reap criteria\n"@,
{
}

/// A dry run terminates nothing: its only action is to report its matches.
pub proof fn dry_run_touches_nothing(run: Run)
    requires
        run is DryRun,
    ensures
        run.to_terminate() == Seq::<i32>::empty(),
        run.action() is Report,
        run.report_text() == dry_run_text(run.matched()),
{
    assert(run.matched() =~= run.outstanding());
}

/// Whatever a run does next is the first of what it is still going to
/// terminate, and it reports only when nothing of that is left.
pub proof fn action_is_next_termination(run: Run)
    ensures
        run.to_terminate().len() > 0 ==> run.action() == (Action::Terminate {
            pid: run.to_terminate()[0],
        }),
        run.to_terminate().len() == 0 ==> run.action() is Report,
{
}

/// At every point of a run with `--execute`, the matches that are settled
/// and those that it is still going to terminate are all its matches, each
/// once and in order; once it reports, every match is settled.
pub proof fn every_match_is_terminated_once(run: Run)
    requires
        run is Execute,
    ensures
        run.settled().map_values(|r: (Backend, Reason, bool)| r.0.pid) + run.to_terminate()
            == run.matched().map_values(|m: (Backend, Reason)| m.0.pid),
        run.action() is Report ==> run.settled().len() == run.matched().len(),
{
    assert(run.settled().map_values(|r: (Backend, Reason, bool)| r.0.pid) + run.to_terminate()
        =~= run.matched().map_values(|m: (Backend, Reason)| m.0.pid));
}

/// With `--execute`, a run sets out to terminate just what a dry run with the
/// same matches lists.
pub proof fn execute_acts_on_what_a_dry_run_lists(dry: Run, acting: Run)
    requires
        dry is DryRun,
        acting is Execute,
        acting.settled() == Seq::<(Backend, Reason, bool)>::empty(),
        acting.matched() == dry.matched(),
    ensures
        acting.to_terminate() == dry.matched().map_values(|m: (Backend, Reason)| m.0.pid),
        dry.report_text() == dry_run_text(acting.matched()),
{
    every_match_is_terminated_once(acting);
    assert(acting.to_terminate() =~= dry.matched().map_values(|m: (Backend, Reason)| m.0.pid));
    dry_run_touches_nothing(dry);
}

/// A backend is terminated only if it was polled and meets the criteria; so it
/// is none of the excluded ones.
pub proof fn only_matches_are_terminated(
    run: Run,
    backends: Seq<Backend>,
    criteria: Criteria,
    pid: i32,
)
    requires
        run.matched() == reapable(backends, criteria),
        run.to_terminate().contains(pid),
    ensures
        exists|i: int|
            0 <= i < backends.len() && #[trigger] backends[i].pid == pid && verdict(
                backends[i],
                criteria,
            ) is Some,
        !criteria.exclude_pids@.contains(pid),
{
    let k = choose|k: int| 0 <= k < run.to_terminate().len() && run.to_terminate()[k] == pid;
    let n = run.settled().len() as int;
    assert(run.matched()[n + k] == run.outstanding()[k]);
    matches_meet_the_criteria(backends, criteria, n + k);
    let b = run.outstanding()[k].0;
    let i = choose|i: int| 0 <= i < backends.len() && backends[i] == b;
    assert(backends[i].pid == pid);
}

/// A backend that the poll left out, such as the one that asked, is never
/// terminated, no matter what the thresholds are.
pub proof fn unpolled_backend_is_never_terminated(
    run: Run,
    backends: Seq<Backend>,
    criteria: Criteria,
    own: i32,
)
    requires
        run.matched() == reapable(backends, criteria),
        forall|i: int| 0 <= i < backends.len() ==> #[trigger] backends[i].pid != own,
    ensures
        !run.to_terminate().contains(own),
        run.action() != (Action::Terminate { pid: own }),
{
    if run.to_terminate().contains(own) {
        only_matches_are_terminated(run, backends, criteria, own);
    }
    action_is_next_termination(run);
    if run.action() == (Action::Terminate { pid: own }) {
        assert(run.to_terminate()[0] == own);
    }
}

} // verus!
