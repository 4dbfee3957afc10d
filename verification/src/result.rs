//! Where the results of jobs are kept: one directory for each revision
//! and test, holding `stdout.txt`, `stderr.txt` and `result.json`.
//!
//! This module decides the layout and the order of writes. Creating
//! directories and files is left to the caller.
use vstd::prelude::*;
use vstd::string::StringExecFns;

verus! {

/// The directory of the results of the test `test` at the revision `rev`,
/// below `base`.
pub open spec fn result_dir(base: Seq<char>, rev: Seq<char>, test: Seq<char>) -> Seq<char> {
    base + "/"@ + rev + "/"@ + test
}

/// The file that records the outcome of a job whose results are in `dir`.
/// A result is cached exactly when this file exists and can be read.
pub open spec fn result_file(dir: Seq<char>) -> Seq<char> {
    dir + "/result.json"@
}

/// The file that holds what a job wrote to its standard output.
pub open spec fn stdout_file(dir: Seq<char>) -> Seq<char> {
    dir + "/stdout.txt"@
}

/// The file that holds what a job wrote to its standard error.
pub open spec fn stderr_file(dir: Seq<char>) -> Seq<char> {
    dir + "/stderr.txt"@
}

/// Different revisions or tests have different result directories, as
/// long as neither a revision nor a test has a `/` in its name: jobs for
/// different revisions or tests never write to the same files.
pub proof fn lemma_result_dirs_differ(
    base: Seq<char>,
    rev_a: Seq<char>,
    test_a: Seq<char>,
    rev_b: Seq<char>,
    test_b: Seq<char>,
)
    requires
        !rev_a.contains('/'),
        !rev_b.contains('/'),
        rev_a != rev_b || test_a != test_b,
    ensures
        result_dir(base, rev_a, test_a) != result_dir(base, rev_b, test_b),
{
    reveal_strlit("/");
    let a = result_dir(base, rev_a, test_a);
    let b = result_dir(base, rev_b, test_b);
    let start = (base.len() + 1) as int;
    assert("/"@.len() == 1 && "/"@[0] == '/');
    if a == b {
        assert(a.len() == start + rev_a.len() + 1 + test_a.len());
        assert(b.len() == start + rev_b.len() + 1 + test_b.len());
        assert forall|i: int| 0 <= i < rev_a.len() implies a[start + i] == rev_a[i] by {}
        assert forall|i: int| 0 <= i < rev_b.len() implies b[start + i] == rev_b[i] by {}
        assert(a[start + rev_a.len()] == '/');
        assert(b[start + rev_b.len()] == '/');
        if rev_a.len() < rev_b.len() {
            assert(b[start + rev_a.len()] == rev_b[rev_a.len() as int]);
            assert(rev_b.contains('/'));
        } else if rev_b.len() < rev_a.len() {
            assert(a[start + rev_b.len()] == rev_a[rev_b.len() as int]);
            assert(rev_a.contains('/'));
        } else {
            assert(rev_a =~= rev_b) by {
                assert forall|i: int| 0 <= i < rev_a.len() implies rev_a[i] == rev_b[i] by {
                    assert(a[start + i] == b[start + i]);
                }
            }
            assert(test_a =~= test_b) by {
                assert forall|i: int| 0 <= i < test_a.len() implies test_a[i] == test_b[i] by {
                    assert(a[start + rev_a.len() + 1 + i] == test_a[i]);
                    assert(b[start + rev_b.len() + 1 + i] == test_b[i]);
                }
            }
        }
    }
}

/// `a` followed by `b`.
fn joined(a: &str, b: &str) -> (s: String)
    ensures
        s@ == a@ + b@,
{
    let mut s = String::from_str(a);
    s.append(b);
    s
}

/// The store of results below one directory.
pub struct Database {
    base_dir: String,
}

impl View for Database {
    type V = Seq<char>;

    /// The directory of the store.
    closed spec fn view(&self) -> Seq<char> {
        self.base_dir@
    }
}

impl Database {
    /// The store below `base_dir`.
    pub fn new(base_dir: String) -> (db: Database)
        ensures
            db@ == base_dir@,
    {
        Database { base_dir }
    }

    /// The directory of the store.
    pub fn base_dir(&self) -> (s: &str)
        ensures
            s@ == self@,
    {
        self.base_dir.as_str()
    }

    /// The directory of the results of `test_name` at `hash`.
    pub fn result_path(&self, hash: &crate::git::CommitHash, test_name: &str) -> (p: String)
        ensures
            p@ == result_dir(self@, hash@, test_name@),
    {
        let mut p = String::from_str(self.base_dir.as_str());
        p.append("/");
        p.append(hash.as_str());
        p.append("/");
        p.append(test_name);
        p
    }

    /// The file to read the cached result of `test_name` at `hash` from:
    /// the one that `TestCaseOutput::set_result` names for the same
    /// revision and test.
    pub fn cached_result_path(&self, hash: &crate::git::CommitHash, test_name: &str) -> (p: String)
        ensures
            p@ == result_file(result_dir(self@, hash@, test_name@)),
    {
        let dir = self.result_path(hash, test_name);
        joined(dir.as_str(), "/result.json")
    }

    /// Prepares the output of a job of `test_name` at `hash`. Nothing is
    /// created yet.
    pub fn create_output(&self, hash: &crate::git::CommitHash, test_name: &str) -> (out: TestCaseOutput)
        ensures
            out@ == (OutputView {
                dir: result_dir(self@, hash@, test_name@),
                stdout_opened: false,
                stderr_opened: false,
                status_written: false,
            }),
    {
        TestCaseOutput::new(self.result_path(hash, test_name))
    }
}

/// The output of one job: where it goes and what has been written.
pub struct TestCaseOutput {
    base_dir: String,
    stdout_opened: bool,
    stderr_opened: bool,
    status_written: bool,
}

/// A `TestCaseOutput` as a mathematical value.
pub struct OutputView {
    pub dir: Seq<char>,
    pub stdout_opened: bool,
    pub stderr_opened: bool,
    pub status_written: bool,
}

impl View for TestCaseOutput {
    type V = OutputView;

    closed spec fn view(&self) -> OutputView {
        OutputView {
            dir: self.base_dir@,
            stdout_opened: self.stdout_opened,
            stderr_opened: self.stderr_opened,
            status_written: self.status_written,
        }
    }
}

impl TestCaseOutput {
    /// The output of a job that writes below `base_dir`.
    pub fn new(base_dir: String) -> (out: TestCaseOutput)
        ensures
            out@ == (OutputView {
                dir: base_dir@,
                stdout_opened: false,
                stderr_opened: false,
                status_written: false,
            }),
    {
        TestCaseOutput { base_dir, stdout_opened: false, stderr_opened: false, status_written: false }
    }

    /// The directory to create before the first write.
    pub fn get_base_dir(&self) -> (s: &str)
        ensures
            s@ == self@.dir,
    {
        self.base_dir.as_str()
    }

    /// Whether the standard output may still be opened.
    pub fn can_open_stdout(&self) -> (b: bool)
        ensures
            b == (!self@.stdout_opened && !self@.status_written),
    {
        !self.stdout_opened && !self.status_written
    }

    /// Whether the standard error may still be opened.
    pub fn can_open_stderr(&self) -> (b: bool)
        ensures
            b == (!self@.stderr_opened && !self@.status_written),
    {
        !self.stderr_opened && !self.status_written
    }

    /// Whether the result may still be written.
    pub fn can_set_result(&self) -> (b: bool)
        ensures
            b == !self@.status_written,
    {
        !self.status_written
    }

    /// Opens the standard output: names the file to create. At most once,
    /// and not after the result was written.
    pub fn stdout(&mut self) -> (path: String)
        requires
            !old(self)@.stdout_opened,
            !old(self)@.status_written,
        ensures
            path@ == stdout_file(old(self)@.dir),
            final(self)@ == (OutputView { stdout_opened: true, ..old(self)@ }),
    {
        self.stdout_opened = true;
        joined(self.base_dir.as_str(), "/stdout.txt")
    }

    /// Opens the standard error: names the file to create. At most once,
    /// and not after the result was written.
    pub fn stderr(&mut self) -> (path: String)
        requires
            !old(self)@.stderr_opened,
            !old(self)@.status_written,
        ensures
            path@ == stderr_file(old(self)@.dir),
            final(self)@ == (OutputView { stderr_opened: true, ..old(self)@ }),
    {
        self.stderr_opened = true;
        joined(self.base_dir.as_str(), "/stderr.txt")
    }

    /// Records that the result is written: names the file to write, which
    /// is the last file of this output. At most once.
    pub fn set_result(&mut self) -> (path: String)
        requires
            !old(self)@.status_written,
        ensures
            path@ == result_file(old(self)@.dir),
            final(self)@ == (OutputView { status_written: true, ..old(self)@ }),
    {
        self.status_written = true;
        joined(self.base_dir.as_str(), "/result.json")
    }
}

} // verus!
