use pgreap::db::ACTIVITY_SQL;

#[test]
fn activity_sql_excludes_self_and_filters_client_backends() {
    // Not a live-query test: just pins down the two conditions this tool's
    // safety depends on so a future edit can't silently drop them.
    assert!(ACTIVITY_SQL.contains("pid <> pg_backend_pid()"));
    assert!(ACTIVITY_SQL.contains("backend_type = 'client backend'"));
}
