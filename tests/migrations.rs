use pocket_rocket::migration::{
    classify_filename, discover, MigrationError, MigrationFile, MigrationRun, NameKind, INIT_SCRIPT,
};

fn names(list: &[&str]) -> Vec<String> {
    list.iter().map(|s| s.to_string()).collect()
}

/// Drives a run the way the service does, returning the scripts executed.
fn execute_all(run: &mut MigrationRun) -> Vec<(u32, String)> {
    let mut executed = Vec::new();
    while let Some(m) = run.next_script() {
        executed.push((m.version, m.filename.clone()));
        run.mark_applied();
    }
    executed
}

fn versions(ms: &[MigrationFile]) -> Vec<u32> {
    ms.iter().map(|m| m.version).collect()
}

#[test]
fn classify_recognises_scripts() {
    assert_eq!(classify_filename("1_create_users.sql"), NameKind::Versioned(1));
    assert_eq!(classify_filename("0042_add_index.sql"), NameKind::Versioned(42));
    assert_eq!(classify_filename("+7_plus.sql"), NameKind::Versioned(7));
    assert_eq!(classify_filename(INIT_SCRIPT), NameKind::Versioned(0));
}

#[test]
fn classify_ignores_other_files() {
    assert_eq!(classify_filename("README.md"), NameKind::Ignored);
    assert_eq!(classify_filename("1_notes.txt"), NameKind::Ignored);
    assert_eq!(classify_filename("1create.sql"), NameKind::Ignored);
    assert_eq!(classify_filename(".sql"), NameKind::Ignored);
    assert_eq!(classify_filename(""), NameKind::Ignored);
}

#[test]
fn classify_rejects_bad_versions() {
    assert_eq!(classify_filename("abc_init.sql"), NameKind::Invalid);
    assert_eq!(classify_filename("_init.sql"), NameKind::Invalid);
    assert_eq!(classify_filename("-1_init.sql"), NameKind::Invalid);
    assert_eq!(classify_filename("4294967296_big.sql"), NameKind::Invalid);
    assert_eq!(classify_filename("4294967295_max.sql"), NameKind::Versioned(4294967295));
}

#[test]
fn discover_sorts_by_version() {
    let listing = names(&["3_c.sql", "README.md", "1_a.sql", "2_b.sql"]);
    let ms = discover(&listing).unwrap();
    assert_eq!(versions(&ms), vec![1, 2, 3]);
    assert_eq!(ms[0].filename, "1_a.sql");
    assert_eq!(ms[2].filename, "3_c.sql");
}

#[test]
fn discover_empty_directory() {
    let ms = discover(&Vec::new()).unwrap();
    assert!(ms.is_empty());
}

#[test]
fn discover_rejects_duplicate_versions() {
    let listing = names(&["1_a.sql", "2_b.sql", "01_again.sql"]);
    assert!(matches!(discover(&listing), Err(MigrationError::DuplicateVersion(1))));
}

#[test]
fn fresh_database_applies_all_in_order() {
    let listing = names(&["2_b.sql", "notes.txt", "3_c.sql", "1_a.sql"]);
    let ms = discover(&listing).unwrap();
    let mut run = MigrationRun::new(ms, None);
    let executed = execute_all(&mut run);
    let applied: Vec<u32> = executed.iter().map(|e| e.0).collect();
    assert_eq!(applied, vec![1, 2, 3]);
    assert_eq!(executed[0].1, "1_a.sql");
    assert_eq!(run.current_baseline(), 3);
}

#[test]
fn second_run_executes_nothing() {
    let listing = names(&["1_a.sql", "2_b.sql", "3_c.sql"]);
    let mut first = MigrationRun::new(discover(&listing).unwrap(), None);
    let executed = execute_all(&mut first);
    assert_eq!(executed.len(), 3);
    let latest = executed.iter().map(|e| e.0).max();
    let mut second = MigrationRun::new(discover(&listing).unwrap(), latest);
    assert!(second.next_script().is_none());
    assert!(execute_all(&mut second).is_empty());
}

#[test]
fn only_versions_above_baseline_run() {
    let listing = names(&["1_a.sql", "2_b.sql", "3_c.sql", "4_d.sql"]);
    let mut run = MigrationRun::new(discover(&listing).unwrap(), Some(2));
    let applied: Vec<u32> = execute_all(&mut run).iter().map(|e| e.0).collect();
    assert_eq!(applied, vec![3, 4]);
}

#[test]
fn init_script_is_not_rerun() {
    let listing = names(&[INIT_SCRIPT, "1_a.sql"]);
    let mut run = MigrationRun::new(discover(&listing).unwrap(), None);
    let applied: Vec<u32> = execute_all(&mut run).iter().map(|e| e.0).collect();
    assert_eq!(applied, vec![1]);
}

#[test]
fn failed_script_is_retried_next_run() {
    let listing = names(&["1_a.sql", "2_b.sql", "3_c.sql"]);
    let mut run = MigrationRun::new(discover(&listing).unwrap(), None);
    // The first script succeeds; the second fails, so the run stops unrecorded.
    assert_eq!(run.next_script().unwrap().version, 1);
    run.mark_applied();
    assert_eq!(run.next_script().unwrap().version, 2);
    let mut retry = MigrationRun::new(discover(&listing).unwrap(), Some(run.current_baseline()));
    assert_eq!(retry.next_script().unwrap().version, 2);
    let applied: Vec<u32> = execute_all(&mut retry).iter().map(|e| e.0).collect();
    assert_eq!(applied, vec![2, 3]);
}

#[test]
fn non_numeric_name_fails_before_any_script() {
    let listing = names(&["1_a.sql", "abc_init.sql", "2_b.sql"]);
    match discover(&listing) {
        Err(MigrationError::InvalidFilename(name)) => assert_eq!(name, "abc_init.sql"),
        other => panic!("expected an invalid file name, got {:?}", other.map(|ms| versions(&ms))),
    }
}

#[test]
fn first_error_in_listing_order_wins() {
    let listing = names(&["1_a.sql", "1_b.sql", "x_c.sql"]);
    assert!(matches!(discover(&listing), Err(MigrationError::DuplicateVersion(1))));
    let listing = names(&["x_c.sql", "1_a.sql", "1_b.sql"]);
    assert!(matches!(discover(&listing), Err(MigrationError::InvalidFilename(_))));
}
