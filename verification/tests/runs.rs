use portunus::apply::{ApplySession, SessionAction};
use portunus::config::resolve_db_url;
use portunus::entry::MigrationEntry;
use portunus::hash::hash_content;
use portunus::reconcile::{all_violations, check_integrity, plan_from_files, plan_run,
    IntegrityKind, PlannedMigration, RunPlan};
use portunus::scan::{sort_files, SqlFile};

fn stored(id: i64, filename: &str, hash: &str) -> MigrationEntry {
    MigrationEntry {
        id: Some(id),
        filename: filename.to_string(),
        hash: hash.to_string(),
        timestamp: Some(0),
    }
}

fn planned(filename: &str, sql: &str) -> PlannedMigration {
    PlannedMigration {
        filename: filename.to_string(),
        hash: hash_content(sql),
        sql: sql.to_string(),
    }
}

fn disk(entries: &[(&str, &str)]) -> Vec<PlannedMigration> {
    let files: Vec<SqlFile> = entries
        .iter()
        .map(|(name, text)| SqlFile { filename: name.to_string(), text: text.to_string() })
        .collect();
    plan_from_files(sort_files(files)).unwrap()
}

#[test]
fn plan_from_files_hashes_each_file() {
    let p = disk(&[("001_init.sql", "CREATE TABLE t (id INT);"), ("002_add.sql", "x")]);
    assert_eq!(p.len(), 2);
    assert_eq!(p[0].filename, "001_init.sql");
    assert_eq!(p[0].hash, hash_content("CREATE TABLE t (id INT);"));
    assert_eq!(p[0].sql, "CREATE TABLE t (id INT);");
    assert_eq!(p[1].filename, "002_add.sql");
}

#[test]
fn plan_from_files_refuses_duplicate_names() {
    let files = vec![
        SqlFile { filename: "001_a.sql".to_string(), text: "x".to_string() },
        SqlFile { filename: "001_a.sql".to_string(), text: "y".to_string() },
    ];
    let got = plan_from_files(sort_files(files));
    assert_eq!(got.unwrap_err(), "001_a.sql");
}

#[test]
fn unchanged_entries_pass_the_integrity_check() {
    let d = disk(&[("001_init.sql", "CREATE TABLE t (id INT);")]);
    let s = vec![stored(1, "001_init.sql", &hash_content("CREATE TABLE t (id INT);"))];
    assert!(check_integrity(&s, &d).is_none());
}

#[test]
fn comment_only_edits_pass_the_integrity_check() {
    let d = disk(&[("001_init.sql", "CREATE TABLE t (id INT); -- edited later\n")]);
    let s = vec![stored(1, "001_init.sql", &hash_content("CREATE TABLE t (id INT);"))];
    assert!(check_integrity(&s, &d).is_none());
}

#[test]
fn drifted_entry_is_reported() {
    let d = disk(&[("001_init.sql", "CREATE TABLE t (id INT, extra TEXT);")]);
    let s = vec![stored(1, "001_init.sql", &hash_content("CREATE TABLE t (id INT);"))];
    let v = check_integrity(&s, &d).unwrap();
    assert_eq!(v.filename, "001_init.sql");
    assert!(matches!(v.kind, IntegrityKind::Drifted));
}

#[test]
fn missing_entry_is_reported() {
    let d = disk(&[("002_add.sql", "x")]);
    let s = vec![stored(1, "001_init.sql", &hash_content("y"))];
    let v = check_integrity(&s, &d).unwrap();
    assert_eq!(v.filename, "001_init.sql");
    assert!(matches!(v.kind, IntegrityKind::Missing));
}

#[test]
fn drift_without_force_aborts_and_keeps_the_store() {
    // The store knows 001 with hash H1; the file on disk now hashes to H2,
    // and a new 002 is pending. Without force the run aborts; the store
    // keeps its single old entry and 002 is never applied.
    let h1 = hash_content("CREATE TABLE t (id INT);");
    let s = vec![stored(1, "001_init.sql", &h1)];
    let d = disk(&[
        ("001_init.sql", "CREATE TABLE t (id INT, sneaky TEXT);"),
        ("002_add.sql", "ALTER TABLE t ADD COLUMN later TEXT;"),
    ]);
    match plan_run(&s, d, false) {
        RunPlan::Abort(v) => {
            assert_eq!(v.filename, "001_init.sql");
            assert!(matches!(v.kind, IntegrityKind::Drifted));
        }
        RunPlan::Apply(_) => panic!("a drifted entry must abort the run"),
    }
    // No session was opened: nothing executed, the store is as it was.
    assert_eq!(s.len(), 1);
    assert_eq!(s[0].hash, h1);
}

#[test]
fn force_skips_violations_and_applies_pending() {
    let h1 = hash_content("CREATE TABLE t (id INT);");
    let s = vec![stored(1, "001_init.sql", &h1)];
    let d = disk(&[
        ("001_init.sql", "CREATE TABLE t (id INT, edited TEXT);"),
        ("002_add.sql", "ALTER TABLE t ADD COLUMN later TEXT;"),
    ]);
    let pending = match plan_run(&s, d, true) {
        RunPlan::Abort(_) => panic!("force must not abort"),
        RunPlan::Apply(p) => p,
    };
    assert_eq!(pending.len(), 1);
    assert_eq!(pending[0].filename, "002_add.sql");

    let mut session = ApplySession::new(pending, false);
    assert!(matches!(session.next_action(), SessionAction::Execute(0)));
    session.record_success(2);
    assert!(matches!(session.next_action(), SessionAction::Commit));
    let after = session.finish(s);
    assert_eq!(after.len(), 2);
    // The drifted entry keeps its stored hash; only 002 was added.
    assert_eq!(after[0].filename, "001_init.sql");
    assert_eq!(after[0].hash, h1);
    assert_eq!(after[1].filename, "002_add.sql");
    assert_eq!(after[1].id, Some(2));
}

#[test]
fn dry_run_never_persists_a_successful_batch() {
    let s = vec![stored(1, "001_init.sql", &hash_content("a"))];
    let d = disk(&[("001_init.sql", "a"), ("002_add.sql", "b")]);
    let pending = match plan_run(&s, d, false) {
        RunPlan::Abort(_) => panic!("nothing drifted"),
        RunPlan::Apply(p) => p,
    };
    let mut session = ApplySession::new(pending, true);
    assert!(matches!(session.next_action(), SessionAction::Execute(0)));
    session.record_success(7);
    // The batch succeeded, yet a dry run always rolls back.
    assert!(matches!(session.next_action(), SessionAction::Rollback));
    let after = session.finish(s);
    assert_eq!(after.len(), 1);
    assert_eq!(after[0].filename, "001_init.sql");
}

#[test]
fn dry_run_never_persists_a_failing_batch() {
    let d = disk(&[("001_init.sql", "not really sql")]);
    let s: Vec<MigrationEntry> = Vec::new();
    let pending = match plan_run(&s, d, false) {
        RunPlan::Abort(_) => panic!("empty store has no violations"),
        RunPlan::Apply(p) => p,
    };
    let mut session = ApplySession::new(pending, true);
    assert!(matches!(session.next_action(), SessionAction::Execute(0)));
    session.record_failure();
    assert!(matches!(session.next_action(), SessionAction::Rollback));
    let after = session.finish(s);
    assert!(after.is_empty());
}

#[test]
fn a_failed_migration_rolls_the_whole_run_back() {
    let s: Vec<MigrationEntry> = Vec::new();
    let d = disk(&[("001_a.sql", "a"), ("002_b.sql", "broken")]);
    let pending = match plan_run(&s, d, false) {
        RunPlan::Abort(_) => panic!("empty store has no violations"),
        RunPlan::Apply(p) => p,
    };
    let mut session = ApplySession::new(pending, false);
    assert!(matches!(session.next_action(), SessionAction::Execute(0)));
    session.record_success(1);
    assert!(matches!(session.next_action(), SessionAction::Execute(1)));
    session.record_failure();
    assert!(matches!(session.next_action(), SessionAction::Rollback));
    // The first migration had run inside the transaction; rollback undoes
    // it, so the store's entries are untouched.
    let after = session.finish(s);
    assert!(after.is_empty());
}

#[test]
fn first_migration_on_an_empty_store() {
    // Empty store, one pending file, a normal run: the store ends with
    // exactly that entry under identifier 1.
    let text = "CREATE TABLE t (id INT);";
    let s: Vec<MigrationEntry> = Vec::new();
    let d = disk(&[("001_init.sql", text)]);
    let pending = match plan_run(&s, d, false) {
        RunPlan::Abort(_) => panic!("empty store has no violations"),
        RunPlan::Apply(p) => p,
    };
    assert_eq!(pending.len(), 1);
    let mut session = ApplySession::new(pending, false);
    let first = session.next_action();
    assert!(matches!(first, SessionAction::Execute(0)));
    assert_eq!(session.migration_at(0).sql, text);
    session.record_success(1);
    assert!(matches!(session.next_action(), SessionAction::Commit));
    let after = session.finish(s);
    assert_eq!(after.len(), 1);
    assert_eq!(after[0].filename, "001_init.sql");
    assert_eq!(after[0].id, Some(1));
    assert_eq!(after[0].hash, hash_content(text));
}

#[test]
fn pending_entries_apply_in_filename_order() {
    let s: Vec<MigrationEntry> = Vec::new();
    let d = disk(&[("010_c.sql", "c"), ("001_a.sql", "a"), ("002_b.sql", "b")]);
    let pending = match plan_run(&s, d, false) {
        RunPlan::Abort(_) => panic!("empty store has no violations"),
        RunPlan::Apply(p) => p,
    };
    let names: Vec<&str> = pending.iter().map(|p| p.filename.as_str()).collect();
    assert_eq!(names, vec!["001_a.sql", "002_b.sql", "010_c.sql"]);
}

#[test]
fn already_applied_entries_are_not_reapplied() {
    let s = vec![stored(1, "001_a.sql", &hash_content("a"))];
    let d = disk(&[("001_a.sql", "a"), ("002_b.sql", "b")]);
    let pending = match plan_run(&s, d, false) {
        RunPlan::Abort(_) => panic!("nothing drifted"),
        RunPlan::Apply(p) => p,
    };
    assert_eq!(pending.len(), 1);
    assert_eq!(pending[0].filename, "002_b.sql");
}

#[test]
fn db_url_prefers_the_command_line() {
    assert_eq!(
        resolve_db_url(Some("a".to_string()), Some("b".to_string())),
        Some("a".to_string())
    );
    assert_eq!(resolve_db_url(None, Some("b".to_string())), Some("b".to_string()));
    assert_eq!(resolve_db_url(None, None), None);
}

#[test]
fn every_violation_is_listed_in_order() {
    let d = disk(&[("001_a.sql", "a"), ("003_c.sql", "c")]);
    let s = vec![
        stored(1, "001_a.sql", &hash_content("a")),
        stored(2, "002_b.sql", &hash_content("b")),
        stored(3, "003_c.sql", &hash_content("c was edited")),
    ];
    let vs = all_violations(&s, &d);
    assert_eq!(vs.len(), 2);
    assert_eq!(vs[0].filename, "002_b.sql");
    assert!(matches!(vs[0].kind, IntegrityKind::Missing));
    assert_eq!(vs[1].filename, "003_c.sql");
    assert!(matches!(vs[1].kind, IntegrityKind::Drifted));
}

#[test]
fn an_intact_history_lists_no_violations() {
    let d = disk(&[("001_a.sql", "a")]);
    let s = vec![stored(1, "001_a.sql", &hash_content("a"))];
    assert!(all_violations(&s, &d).is_empty());
}
