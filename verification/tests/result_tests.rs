use local_ci::git::CommitHash;
use local_ci::result::{Database, TestCaseOutput};

#[test]
fn test_result_paths() {
    let db = Database::new("/var/lci".to_string());
    let rev = CommitHash::new("abc123".to_string());
    assert_eq!(db.base_dir(), "/var/lci");
    assert_eq!(db.result_path(&rev, "unit"), "/var/lci/abc123/unit");
    assert_eq!(
        db.cached_result_path(&rev, "unit"),
        "/var/lci/abc123/unit/result.json"
    );
}

#[test]
fn test_output_files_and_flags() {
    let db = Database::new("base".to_string());
    let rev = CommitHash::new("r1".to_string());
    let mut out = db.create_output(&rev, "t");
    assert_eq!(out.get_base_dir(), "base/r1/t");
    assert!(out.can_open_stdout());
    assert!(out.can_open_stderr());
    assert!(out.can_set_result());
    assert_eq!(out.stdout(), "base/r1/t/stdout.txt");
    assert!(!out.can_open_stdout());
    assert!(out.can_open_stderr());
    assert_eq!(out.stderr(), "base/r1/t/stderr.txt");
    assert!(!out.can_open_stderr());
    assert_eq!(out.set_result(), db.cached_result_path(&rev, "t"));
    assert!(!out.can_set_result());
}

#[test]
fn test_result_is_the_last_file() {
    let mut out = TestCaseOutput::new("d".to_string());
    assert_eq!(out.set_result(), "d/result.json");
    assert!(!out.can_open_stdout());
    assert!(!out.can_open_stderr());
    assert!(!out.can_set_result());
}

#[test]
fn test_hash_values() {
    let a = CommitHash::new("abc".to_string());
    assert_eq!(a.as_str(), "abc");
    assert!(a.same(&a.clone()));
    assert!(!a.same(&CommitHash::new("abd".to_string())));
}
