//! What is asked of the server.
use crate::text::holds;
use vstd::prelude::*;

verus! {

/// One read-only poll of `pg_stat_activity`: every client backend on the
/// server but the one that asks. That one is left out server-side, so it can
/// never be flagged or terminated, no matter what thresholds a run is given.
pub const ACTIVITY_SQL: &'static str = "
SELECT
    pid,
    COALESCE(usename::text, '')                                       AS usename,
    COALESCE(datname::text, '')                                       AS datname,
    COALESCE(application_name, '')                                    AS application_name,
    COALESCE(state, '')                                               AS state,
    COALESCE(EXTRACT(EPOCH FROM (now() - state_change)), 0)::float8   AS state_secs,
    COALESCE(EXTRACT(EPOCH FROM (now() - query_start)), 0)::float8    AS query_secs,
    COALESCE(query, '')                                               AS query
FROM pg_stat_activity
WHERE backend_type = 'client backend'
  AND pid <> pg_backend_pid()
";

/// The poll reads each field from its own column, the ages from the time of the
/// last change of state and of the start of the query, and asks for nothing
/// beyond the two conditions.
pub proof fn poll_reads_each_field_from_its_column()
    ensures
        ACTIVITY_SQL@.len() == 691,
        ACTIVITY_SQL@.subrange(0, 16) == "\nSELECT\n    pid,"@,
        holds(ACTIVITY_SQL@, "COALESCE(usename::text, '')                                       AS usename"@),
        holds(ACTIVITY_SQL@, "COALESCE(datname::text, '')                                       AS datname"@),
        holds(ACTIVITY_SQL@, "COALESCE(application_name, '')                                    AS application_name"@),
        holds(ACTIVITY_SQL@, "COALESCE(state, '')                                               AS state"@),
        holds(ACTIVITY_SQL@, "COALESCE(EXTRACT(EPOCH FROM (now() - state_change)), 0)::float8   AS state_secs"@),
        holds(ACTIVITY_SQL@, "COALESCE(EXTRACT(EPOCH FROM (now() - query_start)), 0)::float8    AS query_secs"@),
        holds(ACTIVITY_SQL@, "COALESCE(query, '')                                               AS query"@),
        ACTIVITY_SQL@.skip(601)
            == "FROM pg_stat_activity\nWHERE backend_type = 'client backend'\n  AND pid <> pg_backend_pid()\n"@,
{
    reveal_strlit("
SELECT
    pid,
    COALESCE(usename::text, '')                                       AS usename,
    COALESCE(datname::text, '')                                       AS datname,
    COALESCE(application_name, '')                                    AS application_name,
    COALESCE(state, '')                                               AS state,
    COALESCE(EXTRACT(EPOCH FROM (now() - state_change)), 0)::float8   AS state_secs,
    COALESCE(EXTRACT(EPOCH FROM (now() - query_start)), 0)::float8    AS query_secs,
    COALESCE(query, '')                                               AS query
FROM pg_stat_activity
WHERE backend_type = 'client backend'
  AND pid <> pg_backend_pid()
");
    let c0 = "COALESCE(usename::text, '')                                       AS usename";
    reveal_strlit("COALESCE(usename::text, '')                                       AS usename");
    assert(ACTIVITY_SQL@.subrange(21, 21int + c0@.len()) =~= c0@);
    let c1 = "COALESCE(datname::text, '')                                       AS datname";
    reveal_strlit("COALESCE(datname::text, '')                                       AS datname");
    assert(ACTIVITY_SQL@.subrange(103, 103int + c1@.len()) =~= c1@);
    let c2 = "COALESCE(application_name, '')                                    AS application_name";
    reveal_strlit("COALESCE(application_name, '')                                    AS application_name");
    assert(ACTIVITY_SQL@.subrange(185, 185int + c2@.len()) =~= c2@);
    let c3 = "COALESCE(state, '')                                               AS state";
    reveal_strlit("COALESCE(state, '')                                               AS state");
    assert(ACTIVITY_SQL@.subrange(276, 276int + c3@.len()) =~= c3@);
    let c4 = "COALESCE(EXTRACT(EPOCH FROM (now() - state_change)), 0)::float8   AS state_secs";
    reveal_strlit("COALESCE(EXTRACT(EPOCH FROM (now() - state_change)), 0)::float8   AS state_secs");
    assert(ACTIVITY_SQL@.subrange(356, 356int + c4@.len()) =~= c4@);
    let c5 = "COALESCE(EXTRACT(EPOCH FROM (now() - query_start)), 0)::float8    AS query_secs";
    reveal_strlit("COALESCE(EXTRACT(EPOCH FROM (now() - query_start)), 0)::float8    AS query_secs");
    assert(ACTIVITY_SQL@.subrange(441, 441int + c5@.len()) =~= c5@);
    let c6 = "COALESCE(query, '')                                               AS query";
    reveal_strlit("COALESCE(query, '')                                               AS query");
    assert(ACTIVITY_SQL@.subrange(526, 526int + c6@.len()) =~= c6@);
    reveal_strlit("\nSELECT\n    pid,");
    assert(ACTIVITY_SQL@.subrange(0, 16) =~= "\nSELECT\n    pid,"@);
    reveal_strlit(
        "FROM pg_stat_activity\nWHERE backend_type = 'client backend'\n  AND pid <> pg_backend_pid()\n",
    );
    assert(ACTIVITY_SQL@.skip(601)
        =~= "FROM pg_stat_activity\nWHERE backend_type = 'client backend'\n  AND pid <> pg_backend_pid()\n"@);
}

/// The poll asks for client backends only, and leaves out the one that asks.
pub proof fn poll_leaves_itself_out()
    ensures
        holds(ACTIVITY_SQL@, "pid <> pg_backend_pid()"@),
        holds(ACTIVITY_SQL@, "backend_type = 'client backend'"@),
{
    poll_reads_each_field_from_its_column();
    let end = ACTIVITY_SQL@.skip(601);
    reveal_strlit(
        "FROM pg_stat_activity\nWHERE backend_type = 'client backend'\n  AND pid <> pg_backend_pid()\n",
    );
    assert(end.len() == 90);
    // Where the two conditions stand in the text.
    let own = "pid <> pg_backend_pid()";
    let client = "backend_type = 'client backend'";
    reveal_strlit("pid <> pg_backend_pid()");
    reveal_strlit("backend_type = 'client backend'");
    assert(end.subrange(66, 89) =~= own@);
    assert(end.subrange(28, 59) =~= client@);
    assert(ACTIVITY_SQL@.subrange(667, 667int + own@.len()) =~= end.subrange(66, 89));
    assert(ACTIVITY_SQL@.subrange(629, 629int + client@.len()) =~= end.subrange(28, 59));
}

} // verus!
