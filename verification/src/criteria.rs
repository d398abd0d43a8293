//! Deciding which backends are worth reaping. Pure logic, with no database
//! connection anywhere in this file.
use crate::seconds::{order_read_off_the_bits, Seconds};
use vstd::prelude::*;

verus! {

/// One row of `pg_stat_activity`, already flattened to plain fields.
#[derive(Debug, Clone, PartialEq)]
pub struct Backend {
    pub pid: i32,
    pub user: String,
    pub database: String,
    pub application_name: String,
    /// Raw `pg_stat_activity.state`: `active`, `idle`,
    /// `idle in transaction`, `idle in transaction (aborted)`, or empty
    /// for background workers that don't report one.
    pub state: String,
    /// Seconds since `state_change`: how long it has sat in `state`.
    pub state_secs: Seconds,
    /// Seconds since `query_start` (0 when there is no current query).
    pub query_secs: Seconds,
    pub query: String,
}

impl Default for Backend {
    fn default() -> (b: Backend)
        ensures
            b.pid == 0,
            b.user@ == Seq::<char>::empty(),
            b.database@ == Seq::<char>::empty(),
            b.application_name@ == Seq::<char>::empty(),
            b.state@ == Seq::<char>::empty(),
            b.state_secs.bits == 0,
            b.query_secs.bits == 0,
            b.query@ == Seq::<char>::empty(),
    {
        Backend {
            pid: 0,
            user: String::new(),
            database: String::new(),
            application_name: String::new(),
            state: String::new(),
            state_secs: Seconds::default(),
            query_secs: Seconds::default(),
            query: String::new(),
        }
    }
}

impl Backend {
    /// In a transaction that is open, or aborted and not yet closed, with no
    /// statement running.
    pub open spec fn idles_in_transaction(self) -> bool {
        ||| self.state@ == "idle in transaction"@
        ||| self.state@ == "idle in transaction (aborted)"@
    }

    /// Running a statement.
    pub open spec fn runs(self) -> bool {
        self.state@ == "active"@
    }

    pub fn is_idle_in_transaction(&self) -> (b: bool)
        ensures
            b == self.idles_in_transaction(),
    {
        self.state == "idle in transaction".to_owned()
            || self.state == "idle in transaction (aborted)".to_owned()
    }

    pub fn is_active(&self) -> (b: bool)
        ensures
            b == self.runs(),
    {
        self.state == "active".to_owned()
    }
}

/// What tripped the reap criteria for one backend, and for how long.
#[derive(Debug, Clone, Copy, PartialEq)]
pub enum Reason {
    IdleInTransaction { for_secs: Seconds },
    LongRunningQuery { for_secs: Seconds },
}

impl Reason {
    /// The age that tripped the criteria.
    pub open spec fn age(self) -> Seconds {
        match self {
            Reason::IdleInTransaction { for_secs } => for_secs,
            Reason::LongRunningQuery { for_secs } => for_secs,
        }
    }

    /// How the reason is named to the reader.
    pub open spec fn name(self) -> Seq<char> {
        match self {
            Reason::IdleInTransaction { .. } => "idle in transaction"@,
            Reason::LongRunningQuery { .. } => "long-running query"@,
        }
    }

    pub fn for_secs(self) -> (secs: Seconds)
        ensures
            secs == self.age(),
    {
        match self {
            Reason::IdleInTransaction { for_secs } => for_secs,
            Reason::LongRunningQuery { for_secs } => for_secs,
        }
    }

    pub fn label(self) -> (text: &'static str)
        ensures
            text@ == self.name(),
    {
        match self {
            Reason::IdleInTransaction { .. } => "idle in transaction",
            Reason::LongRunningQuery { .. } => "long-running query",
        }
    }
}

/// The thresholds and filters a run was invoked with.
#[derive(Debug, Clone)]
pub struct Criteria {
    /// Flag idle-in-transaction backends that have sat that way at least
    /// this long. `None` disables idle-in-transaction detection entirely.
    pub idle_tx_seconds: Option<Seconds>,
    /// Flag `active` backends whose current query has run at least this
    /// long. `None` disables this: a long-running query is often a legitimate
    /// batch job, unlike a forgotten open transaction.
    pub query_seconds: Option<Seconds>,
    pub database: Option<String>,
    pub user: Option<String>,
    pub exclude_pids: Vec<i32>,
}

impl Criteria {
    /// The backends that the filters leave in.
    pub open spec fn considers(self, backend: Backend) -> bool {
        &&& !self.exclude_pids@.contains(backend.pid)
        &&& self.database is Some ==> backend.database@ == self.database->0@
        &&& self.user is Some ==> backend.user@ == self.user->0@
    }

    /// The backends that have idled in a transaction for too long.
    pub open spec fn idles_too_long(self, backend: Backend) -> bool {
        &&& self.idle_tx_seconds is Some
        &&& backend.idles_in_transaction()
        &&& backend.state_secs.reaches(self.idle_tx_seconds->0)
    }

    /// The backends that have run one query for too long.
    pub open spec fn runs_too_long(self, backend: Backend) -> bool {
        &&& self.query_seconds is Some
        &&& backend.runs()
        &&& backend.query_secs.reaches(self.query_seconds->0)
    }
}

/// Why `backend` meets the criteria, if it does.
pub open spec fn verdict(backend: Backend, criteria: Criteria) -> Option<Reason> {
    if !criteria.considers(backend) {
        None
    } else if criteria.idles_too_long(backend) {
        Some(Reason::IdleInTransaction { for_secs: backend.state_secs })
    } else if criteria.runs_too_long(backend) {
        Some(Reason::LongRunningQuery { for_secs: backend.query_secs })
    } else {
        None
    }
}

/// The backends that meet the criteria, in order, each with its reason.
pub open spec fn reapable(backends: Seq<Backend>, criteria: Criteria) -> Seq<(Backend, Reason)> {
    backends.filter(|b: Backend| verdict(b, criteria) is Some).map_values(
        |b: Backend| (b, verdict(b, criteria)->0),
    )
}

fn contains_pid(pids: &Vec<i32>, pid: i32) -> (found: bool)
    ensures
        found == pids@.contains(pid),
{
    let mut i: usize = 0;
    while i < pids.len()
        invariant
            i <= pids.len(),
            forall|k: int| 0 <= k < i ==> pids@[k] != pid,
        decreases pids.len() - i,
    {
        if pids[i] == pid {
            return true;
        }
        i = i + 1;
    }
    false
}

/// Does `backend` meet the reap criteria, and if so, why?
///
/// Idle-in-transaction is checked before long-running-query so a backend
/// that somehow matches both (state flapped between polls, or a caller
/// passed unusual thresholds) is reported once, for the more actionable
/// reason.
pub fn evaluate(backend: &Backend, criteria: &Criteria) -> (reason: Option<Reason>)
    ensures
        reason == verdict(*backend, *criteria),
{
    if contains_pid(&criteria.exclude_pids, backend.pid) {
        return None;
    }
    if let Some(db) = &criteria.database {
        if backend.database != *db {
            return None;
        }
    }
    if let Some(user) = &criteria.user {
        if backend.user != *user {
            return None;
        }
    }
    if let Some(threshold) = criteria.idle_tx_seconds {
        if backend.is_idle_in_transaction() && backend.state_secs.at_least(threshold) {
            return Some(Reason::IdleInTransaction { for_secs: backend.state_secs });
        }
    }
    if let Some(threshold) = criteria.query_seconds {
        if backend.is_active() && backend.query_secs.at_least(threshold) {
            return Some(Reason::LongRunningQuery { for_secs: backend.query_secs });
        }
    }
    None
}

/// Picks the backends that meet the criteria out of a poll.
pub fn find_matches(backends: Vec<Backend>, criteria: &Criteria) -> (found: Vec<(Backend, Reason)>)
    ensures
        found@ == reapable(backends@, *criteria),
{
    let ghost pred = |b: Backend| verdict(b, *criteria) is Some;
    let ghost with_reason = |b: Backend| (b, verdict(b, *criteria)->0);
    let mut found: Vec<(Backend, Reason)> = Vec::new();
    let ghost all: Seq<Backend> = backends@;
    proof {
        reveal(Seq::filter);
        assert(all.take(0).filter(pred).map_values(with_reason) =~= found@);
    }
    for backend in iter: backends
        invariant
            iter.seq() == all,
            pred == (|b: Backend| verdict(b, *criteria) is Some),
            with_reason == (|b: Backend| (b, verdict(b, *criteria)->0)),
            found@ == all.take(iter.index()).filter(pred).map_values(with_reason),
    {
        proof {
            reveal(Seq::filter);
            assert(all.take(iter.index() + 1).drop_last() =~= all.take(iter.index()));
        }
        if let Some(reason) = evaluate(&backend, criteria) {
            found.push((backend, reason));
        }
        assert(found@ =~= all.take(iter.index() + 1).filter(pred).map_values(with_reason));
    }
    assert(all.take(all.len() as int) =~= all);
    found
}

/// A backend is idle in a transaction or active, never both.
pub proof fn states_exclude_each_other(backend: Backend)
    ensures
        !(backend.idles_in_transaction() && backend.runs()),
{
    reveal_strlit("active");
    reveal_strlit("idle in transaction");
    reveal_strlit("idle in transaction (aborted)");
    assert("active"@.len() == 6);
    assert("idle in transaction"@.len() == 19);
    assert("idle in transaction (aborted)"@.len() == 29);
}

/// The states that count as idle in a transaction, and as active, by name.
pub proof fn states_go_by_their_names(backend: Backend)
    ensures
        backend.state@ == "idle in transaction"@ ==> backend.idles_in_transaction(),
        backend.state@ == "idle in transaction (aborted)"@ ==> backend.idles_in_transaction(),
        backend.state@ == "active"@ ==> backend.runs(),
        backend.idles_in_transaction() ==> backend.state@ == "idle in transaction"@
            || backend.state@ == "idle in transaction (aborted)"@,
        backend.runs() ==> backend.state@ == "active"@,
{
}

/// Each reason keeps the age that it was given and has its own name.
pub proof fn reasons_keep_their_age(secs: Seconds)
    ensures
        (Reason::IdleInTransaction { for_secs: secs }).age() == secs,
        (Reason::LongRunningQuery { for_secs: secs }).age() == secs,
        (Reason::IdleInTransaction { for_secs: secs }).name() == "idle in transaction"@,
        (Reason::LongRunningQuery { for_secs: secs }).name() == "long-running query"@,
{
}

/// A backend whose pid is not excluded, and whose database and role are the ones
/// asked for where one is asked for, is judged by its state and its ages alone:
/// idle in a transaction, it is flagged with the time it has been so, exactly
/// where a threshold is set and reached; active, with the time its query has
/// run, exactly where that threshold is set and reached; in any other state,
/// never. There is no age from which on it is left alone.
pub proof fn unfiltered_backends_are_judged_by_state_and_age(backend: Backend, criteria: Criteria)
    requires
        forall|k: int|
            0 <= k < criteria.exclude_pids@.len() ==> #[trigger] criteria.exclude_pids@[k]
                != backend.pid,
        criteria.database matches Some(database) ==> database@ == backend.database@,
        criteria.user matches Some(user) ==> user@ == backend.user@,
    ensures
        backend.state@ == "idle in transaction"@ || backend.state@
            == "idle in transaction (aborted)"@ ==> verdict(backend, criteria) == (
        match criteria.idle_tx_seconds {
            Some(threshold) => if backend.state_secs.reaches(threshold) {
                Some(Reason::IdleInTransaction { for_secs: backend.state_secs })
            } else {
                None
            },
            None => None,
        }),
        backend.state@ == "active"@ ==> verdict(backend, criteria) == (
        match criteria.query_seconds {
            Some(threshold) => if backend.query_secs.reaches(threshold) {
                Some(Reason::LongRunningQuery { for_secs: backend.query_secs })
            } else {
                None
            },
            None => None,
        }),
        backend.state@ != "idle in transaction"@ && backend.state@
            != "idle in transaction (aborted)"@ && backend.state@ != "active"@ ==> verdict(
            backend,
            criteria,
        ) is None,
{
    states_exclude_each_other(backend);
}

/// With no filter set, a backend that is idle in a transaction is flagged from
/// the threshold on, however old it is; ages and thresholds that are not below
/// zero are compared by their bits.
pub proof fn without_filters_age_alone_decides(
    backend: Backend,
    criteria: Criteria,
    threshold: Seconds,
)
    requires
        criteria.exclude_pids@.len() == 0,
        criteria.database is None,
        criteria.user is None,
        criteria.idle_tx_seconds == Some(threshold),
        backend.state@ == "idle in transaction"@ || backend.state@
            == "idle in transaction (aborted)"@,
        threshold.bits <= 0x7FF0_0000_0000_0000,
        backend.state_secs.bits <= 0x7FF0_0000_0000_0000,
    ensures
        backend.state_secs.bits >= threshold.bits ==> verdict(backend, criteria) == Some(
            Reason::IdleInTransaction { for_secs: backend.state_secs },
        ),
        backend.state_secs.bits < threshold.bits ==> verdict(backend, criteria) is None,
{
    unfiltered_backends_are_judged_by_state_and_age(backend, criteria);
    order_read_off_the_bits(backend.state_secs, threshold);
}

/// A flagged backend passes the filters; the reason is the state that it is in;
/// the age is the time that it has been in that state or at that query, and it
/// reaches the threshold.
pub proof fn reason_is_state_and_age(backend: Backend, criteria: Criteria, reason: Reason)
    requires
        verdict(backend, criteria) == Some(reason),
    ensures
        criteria.considers(backend),
        reason is IdleInTransaction <==> backend.idles_in_transaction(),
        reason is LongRunningQuery <==> backend.runs(),
        reason is IdleInTransaction ==> {
            &&& reason.age() == backend.state_secs
            &&& criteria.idle_tx_seconds is Some
            &&& reason.age().reaches(criteria.idle_tx_seconds->0)
        },
        reason is LongRunningQuery ==> {
            &&& reason.age() == backend.query_secs
            &&& criteria.query_seconds is Some
            &&& reason.age().reaches(criteria.query_seconds->0)
        },
{
    states_exclude_each_other(backend);
}

/// A backend that is idle in a transaction is flagged exactly from the
/// threshold on, the threshold itself included, and for that reason, whatever
/// the other threshold is.
pub proof fn idle_transactions_are_flagged_from_the_threshold_on(
    backend: Backend,
    criteria: Criteria,
    threshold: Seconds,
)
    requires
        criteria.considers(backend),
        criteria.idle_tx_seconds == Some(threshold),
        backend.idles_in_transaction(),
        !backend.state_secs.is_nan(),
        !threshold.is_nan(),
    ensures
        backend.state_secs.value() >= threshold.value() ==> verdict(backend, criteria) == Some(
            Reason::IdleInTransaction { for_secs: backend.state_secs },
        ),
        backend.state_secs.value() < threshold.value() ==> verdict(backend, criteria) is None,
{
    states_exclude_each_other(backend);
}

/// An active backend is flagged exactly from the threshold on, the threshold
/// itself included.
pub proof fn long_queries_are_flagged_from_the_threshold_on(
    backend: Backend,
    criteria: Criteria,
    threshold: Seconds,
)
    requires
        criteria.considers(backend),
        criteria.query_seconds == Some(threshold),
        backend.runs(),
        !backend.query_secs.is_nan(),
        !threshold.is_nan(),
    ensures
        backend.query_secs.value() >= threshold.value() ==> verdict(backend, criteria) == Some(
            Reason::LongRunningQuery { for_secs: backend.query_secs },
        ),
        backend.query_secs.value() < threshold.value() ==> verdict(backend, criteria) is None,
{
    states_exclude_each_other(backend);
}

/// A threshold of zero flags every backend that is idle in a transaction and
/// passes the filters, whatever its age.
pub proof fn zero_flags_every_idle_transaction(
    backend: Backend,
    criteria: Criteria,
    threshold: Seconds,
)
    requires
        criteria.considers(backend),
        criteria.idle_tx_seconds == Some(threshold),
        !threshold.is_nan(),
        threshold.value() == 0,
        backend.idles_in_transaction(),
        !backend.state_secs.is_nan(),
        backend.state_secs.value() >= 0,
    ensures
        verdict(backend, criteria) is Some,
{
}

/// An aborted transaction counts like one that is open.
pub proof fn aborted_transactions_count_too(open: Backend, aborted: Backend, criteria: Criteria)
    requires
        open.state@ == "idle in transaction"@,
        aborted.state@ == "idle in transaction (aborted)"@,
        open.pid == aborted.pid,
        open.user@ == aborted.user@,
        open.database@ == aborted.database@,
        open.state_secs == aborted.state_secs,
    ensures
        verdict(open, criteria) == verdict(aborted, criteria),
{
    states_exclude_each_other(open);
    states_exclude_each_other(aborted);
}

/// A backend that is merely idle is never flagged, and neither is any other
/// that is neither idle in a transaction nor active.
pub proof fn plain_idle_is_never_flagged(backend: Backend, criteria: Criteria)
    requires
        backend.state@ == "idle"@ || !(backend.idles_in_transaction() || backend.runs()),
    ensures
        verdict(backend, criteria) is None,
{
    reveal_strlit("idle");
    reveal_strlit("active");
    reveal_strlit("idle in transaction");
    reveal_strlit("idle in transaction (aborted)");
    assert("idle"@.len() == 4);
    assert("active"@.len() == 6);
    assert("idle in transaction"@.len() == 19);
    assert("idle in transaction (aborted)"@.len() == 29);
}

/// Without a threshold for it, neither rule flags anything.
pub proof fn rules_need_a_threshold(backend: Backend, criteria: Criteria)
    ensures
        criteria.idle_tx_seconds is None && backend.idles_in_transaction() ==> verdict(
            backend,
            criteria,
        ) is None,
        criteria.query_seconds is None && backend.runs() ==> verdict(backend, criteria) is None,
{
    states_exclude_each_other(backend);
}

/// A backend that is excluded by pid, or that is in another database or under
/// another role than the one asked for, is never flagged.
pub proof fn filtered_backends_are_never_flagged(backend: Backend, criteria: Criteria)
    requires
        ({
            ||| criteria.exclude_pids@.contains(backend.pid)
            ||| criteria.database is Some && criteria.database->0@ != backend.database@
            ||| criteria.user is Some && criteria.user->0@ != backend.user@
        }),
    ensures
        verdict(backend, criteria) is None,
{
}

/// The verdict does not depend on what an application calls itself or on what
/// it asked last.
pub proof fn verdict_ignores_application_and_query(a: Backend, b: Backend, criteria: Criteria)
    requires
        a.pid == b.pid,
        a.user@ == b.user@,
        a.database@ == b.database@,
        a.state@ == b.state@,
        a.state_secs == b.state_secs,
        a.query_secs == b.query_secs,
    ensures
        verdict(a, criteria) == verdict(b, criteria),
{
}

/// With the same thresholds, filters that let fewer backends through only take
/// matches away: what is still flagged is flagged for the same reason.
pub proof fn filters_only_narrow(backend: Backend, wide: Criteria, narrow: Criteria)
    requires
        wide.idle_tx_seconds == narrow.idle_tx_seconds,
        wide.query_seconds == narrow.query_seconds,
        narrow.considers(backend) ==> wide.considers(backend),
        verdict(backend, narrow) is Some,
    ensures
        verdict(backend, narrow) == verdict(backend, wide),
{
}

/// Raising a threshold only takes matches away: what is still flagged would be
/// flagged under the lower thresholds, for the same reason.
pub proof fn higher_thresholds_only_narrow(backend: Backend, low: Criteria, high: Criteria)
    requires
        low.considers(backend) == high.considers(backend),
        high.idle_tx_seconds is Some ==> low.idle_tx_seconds is Some
            && high.idle_tx_seconds->0.reaches(low.idle_tx_seconds->0),
        high.query_seconds is Some ==> low.query_seconds is Some
            && high.query_seconds->0.reaches(low.query_seconds->0),
        verdict(backend, high) is Some,
    ensures
        verdict(backend, high) == verdict(backend, low),
{
    states_exclude_each_other(backend);
}

/// Every match is a backend of the poll that meets the criteria, with its
/// reason.
pub proof fn matches_meet_the_criteria(backends: Seq<Backend>, criteria: Criteria, i: int)
    requires
        0 <= i < reapable(backends, criteria).len(),
    ensures
        backends.contains(reapable(backends, criteria)[i].0),
        verdict(reapable(backends, criteria)[i].0, criteria) == Some(
            reapable(backends, criteria)[i].1,
        ),
{
    let pred = |b: Backend| verdict(b, criteria) is Some;
    backends.lemma_filter_pred(pred, i);
    backends.lemma_filter_contains_rev(pred, backends.filter(pred)[i]);
}

/// Backends are judged one by one: the matches of two polls together are those
/// of the one, then those of the other.
pub proof fn polls_are_judged_backend_by_backend(
    first: Seq<Backend>,
    second: Seq<Backend>,
    criteria: Criteria,
)
    ensures
        reapable(first + second, criteria) == reapable(first, criteria) + reapable(
            second,
            criteria,
        ),
{
    let pred = |b: Backend| verdict(b, criteria) is Some;
    Seq::filter_distributes_over_add(first, second, pred);
    assert(reapable(first + second, criteria) =~= reapable(first, criteria) + reapable(
        second,
        criteria,
    ));
}

/// A poll of one backend has that backend for its match, with its reason, or
/// none; an empty poll has none. With `polls_are_judged_backend_by_backend` this
/// fixes the matches of every poll.
pub proof fn a_single_backend_is_matched_or_not(backend: Backend, criteria: Criteria)
    ensures
        reapable(Seq::empty(), criteria) == Seq::<(Backend, Reason)>::empty(),
        verdict(backend, criteria) matches Some(reason) ==> reapable(seq![backend], criteria)
            == seq![(backend, reason)],
        verdict(backend, criteria) is None ==> reapable(seq![backend], criteria) == Seq::<
            (Backend, Reason),
        >::empty(),
{
    let pred = |b: Backend| verdict(b, criteria) is Some;
    reveal(Seq::filter);
    assert(Seq::<Backend>::empty().filter(pred) =~= Seq::empty());
    assert(reapable(Seq::empty(), criteria) =~= Seq::<(Backend, Reason)>::empty());
    let one = seq![backend];
    assert(one.drop_last() =~= Seq::empty());
    if let Some(reason) = verdict(backend, criteria) {
        assert(reapable(one, criteria) =~= seq![(backend, reason)]);
    } else {
        assert(reapable(one, criteria) =~= Seq::<(Backend, Reason)>::empty());
    }
}

/// Every backend of the poll that meets the criteria is a match.
pub proof fn no_match_is_missed(backends: Seq<Backend>, criteria: Criteria, i: int)
    requires
        0 <= i < backends.len(),
        verdict(backends[i], criteria) is Some,
    ensures
        reapable(backends, criteria).contains((backends[i], verdict(backends[i], criteria)->0)),
{
    let pred = |b: Backend| verdict(b, criteria) is Some;
    backends.lemma_filter_contains(pred, i);
    let kept = backends.filter(pred);
    let k = choose|k: int| 0 <= k < kept.len() && kept[k] == backends[i];
    assert(reapable(backends, criteria)[k] == (backends[i], verdict(backends[i], criteria)->0));
}

} // verus!
