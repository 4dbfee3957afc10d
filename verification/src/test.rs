//! Tests as the job manager runs them, and the decisions of the manager
//! and of a running job.
use crate::dag::{Dag, GraphNode};
use crate::git::CommitHash;
use crate::resource::ResourceMap;
use crate::text::{clone_strings, texts};
use tokio_util::sync::CancellationToken;
use vstd::prelude::*;

verus! {

/// The name of a test, unique among the tests of one configuration.
#[derive(Debug)]
pub struct TestName {
    name: String,
}

impl View for TestName {
    type V = Seq<char>;

    closed spec fn view(&self) -> Seq<char> {
        self.name@
    }
}

impl TestName {
    pub fn new(name: String) -> (n: TestName)
        ensures
            n@ == name@,
    {
        TestName { name }
    }

    /// The text of the name.
    pub fn as_str(&self) -> (s: &str)
        ensures
            s@ == self@,
    {
        self.name.as_str()
    }

    /// Whether both names have the same text.
    pub fn same(&self, other: &TestName) -> (b: bool)
        ensures
            b == (self@ == other@),
    {
        self.name == other.name
    }
}

impl Clone for TestName {
    fn clone(&self) -> (n: TestName)
        ensures
            n@ == self@,
    {
        TestName { name: self.name.clone() }
    }
}

/// The views of the names of `v`.
pub open spec fn name_texts(v: Seq<TestName>) -> Seq<Seq<char>> {
    v.map_values(|n: TestName| n@)
}

/// Which key of a revision indexes the cached result of a test.
#[derive(Debug, Clone, Copy, PartialEq, Eq, Structural)]
pub enum CachePolicy {
    /// Results are never reused.
    NoCache,
    /// Results are reused for the same commit.
    ByCommit,
    /// Results are reused for the same tree.
    ByTree,
}

/// A test that is ready to run.
pub struct Test {
    pub name: TestName,
    /// The executable.
    pub program: String,
    /// The arguments of the executable.
    pub args: Vec<String>,
    /// How many resources of each kind a job of this test holds while it
    /// runs.
    pub needs_resources: ResourceMap<usize>,
    /// Seconds between the request to stop and the forceful kill.
    pub shutdown_grace_period_s: u64,
    pub cache_policy: CachePolicy,
    /// Identifies the declaration of this test together with those of
    /// everything it depends on.
    pub config_hash: u64,
    /// The tests that this test depends on, in declaration order.
    pub depends_on: Vec<TestName>,
}

/// The tests of a configuration, with their dependencies as edges.
pub type TestDag = Dag<TestName, Test>;

impl GraphNode<TestName> for Test {
    open spec fn spec_id(&self) -> Seq<char> {
        self.name@
    }

    open spec fn spec_child_ids(&self) -> Seq<Seq<char>> {
        name_texts(self.depends_on@)
    }

    fn id(&self) -> (r: TestName) {
        self.name.clone()
    }

    fn child_ids(&self) -> (r: Vec<TestName>) {
        let mut r: Vec<TestName> = Vec::new();
        let mut i: usize = 0;
        while i < self.depends_on.len()
            invariant
                i <= self.depends_on.len(),
                r@.len() == i,
                forall|j: int| 0 <= j < i ==> r@[j]@ == self.depends_on@[j]@,
            decreases self.depends_on.len() - i,
        {
            r.push(self.depends_on[i].clone());
            i += 1;
        }
        r
    }

    fn has_id(&self, id: &TestName) -> (b: bool) {
        self.name.same(id)
    }
}


/// A handle that tells a job to stop. Clones of a handle are the same
/// handle.
#[verifier::external_type_specification]
#[verifier::external_body]
pub struct ExCancellationToken(CancellationToken);

/// `CancellationToken::new` makes a handle that has not been fired.
/// Nothing is claimed of it.
pub assume_specification[ CancellationToken::new ]() -> (t: CancellationToken)
;

/// `CancellationToken::cancel` fires the handle; firing it again changes
/// nothing. It returns nothing, and nothing is claimed of it.
pub assume_specification[ CancellationToken::cancel ](t: &CancellationToken)
;

/// `CancellationToken::clone` hands out the same handle once more.
/// Nothing is claimed of it.
pub assume_specification[ <CancellationToken as Clone>::clone ](t: &CancellationToken) -> (c:
    CancellationToken)
;

/// The texts of the hashes of `v`.
pub open spec fn rev_texts(v: Seq<CommitHash>) -> Seq<Seq<char>> {
    v.map_values(|h: CommitHash| h@)
}

/// The entries of `s`, in their order, that occur in `others` (if
/// `present`) or do not occur in it (if not).
pub open spec fn only(s: Seq<Seq<char>>, others: Seq<Seq<char>>, present: bool) -> Seq<Seq<char>>
    decreases s.len(),
{
    if s.len() == 0 {
        Seq::empty()
    } else if others.contains(s.last()) == present {
        only(s.drop_last(), others, present).push(s.last())
    } else {
        only(s.drop_last(), others, present)
    }
}

/// The revisions of `revs` to start jobs for: those that are neither
/// running nor cached, each once, in the order of their first mention.
pub open spec fn fresh(revs: Seq<Seq<char>>, running: Seq<Seq<char>>, cached: Seq<Seq<char>>) -> Seq<
    Seq<char>,
>
    decreases revs.len(),
{
    if revs.len() == 0 {
        Seq::empty()
    } else {
        let before = fresh(revs.drop_last(), running, cached);
        let rev = revs.last();
        if running.contains(rev) || cached.contains(rev) || before.contains(rev) {
            before
        } else {
            before.push(rev)
        }
    }
}

/// `only` holds exactly the entries of `s` that it is asked for, and as
/// few duplicates as `s`.
pub proof fn lemma_only(s: Seq<Seq<char>>, others: Seq<Seq<char>>, present: bool)
    ensures
        forall|x: Seq<char>| #[trigger]
            only(s, others, present).contains(x) <==> s.contains(x) && others.contains(x)
                == present,
        s.no_duplicates() ==> only(s, others, present).no_duplicates(),
    decreases s.len(),
{
    let r = only(s, others, present);
    if s.len() > 0 {
        let front = s.drop_last();
        let f = only(front, others, present);
        lemma_only(front, others, present);
        assert forall|x: Seq<char>| #[trigger] r.contains(x) <==> s.contains(x) && others.contains(
            x,
        ) == present by {
            if s.contains(x) {
                let i = choose|i: int| 0 <= i < s.len() && s[i] == x;
                if i < front.len() {
                    assert(front[i] == x);
                }
            }
            if front.contains(x) {
                let i = choose|i: int| 0 <= i < front.len() && front[i] == x;
                assert(s[i] == x);
            }
            if f.contains(x) {
                let i = choose|i: int| 0 <= i < f.len() && f[i] == x;
                if r.len() > f.len() {
                    assert(r[i] == x);
                }
            }
            if r.contains(x) && r.len() > f.len() {
                let i = choose|i: int| 0 <= i < r.len() && r[i] == x;
                if i < f.len() {
                    assert(f[i] == x);
                } else {
                    assert(s[s.len() - 1] == x);
                }
            }
            if x == s.last() && others.contains(x) == present {
                assert(r[f.len() as int] == x);
            }
        }
        if s.no_duplicates() {
            assert(front.no_duplicates()) by {
                assert forall|i: int, j: int|
                    0 <= i < front.len() && 0 <= j < front.len() && i != j implies front[i]
                    != front[j] by {
                    assert(front[i] == s[i] && front[j] == s[j]);
                }
            }
            if r.len() > f.len() {
                assert(!f.contains(s.last())) by {
                    if front.contains(s.last()) {
                        let i = choose|i: int| 0 <= i < front.len() && front[i] == s.last();
                        assert(s[i] == s[s.len() - 1]);
                    }
                }
                assert forall|i: int, j: int|
                    0 <= i < r.len() && 0 <= j < r.len() && i != j implies r[i] != r[j] by {
                    if i < f.len() {
                        assert(f.contains(r[i]));
                    }
                    if j < f.len() {
                        assert(f.contains(r[j]));
                    }
                }
            }
        }
    }
}

/// Jobs are started for exactly the wanted revisions that are neither
/// running nor cached, and for none of them twice.
pub proof fn lemma_fresh(revs: Seq<Seq<char>>, running: Seq<Seq<char>>, cached: Seq<Seq<char>>)
    ensures
        forall|x: Seq<char>| #[trigger]
            fresh(revs, running, cached).contains(x) <==> revs.contains(x) && !running.contains(x)
                && !cached.contains(x),
        fresh(revs, running, cached).no_duplicates(),
    decreases revs.len(),
{
    let r = fresh(revs, running, cached);
    if revs.len() > 0 {
        let front = revs.drop_last();
        let f = fresh(front, running, cached);
        let rev = revs.last();
        lemma_fresh(front, running, cached);
        assert forall|x: Seq<char>| #[trigger]
            r.contains(x) <==> revs.contains(x) && !running.contains(x) && !cached.contains(
            x,
        ) by {
            if revs.contains(x) {
                let i = choose|i: int| 0 <= i < revs.len() && revs[i] == x;
                if i < front.len() {
                    assert(front[i] == x);
                }
            }
            if front.contains(x) {
                let i = choose|i: int| 0 <= i < front.len() && front[i] == x;
                assert(revs[i] == x);
            }
            if f.contains(x) {
                let i = choose|i: int| 0 <= i < f.len() && f[i] == x;
                if r.len() > f.len() {
                    assert(r[i] == x);
                }
            }
            if r.contains(x) && r.len() > f.len() {
                let i = choose|i: int| 0 <= i < r.len() && r[i] == x;
                if i < f.len() {
                    assert(f[i] == x);
                } else {
                    assert(revs[revs.len() - 1] == x);
                }
            }
            if x == rev && r.len() > f.len() {
                assert(r[f.len() as int] == x);
            }
        }
        if r.len() > f.len() {
            assert forall|i: int, j: int|
                0 <= i < r.len() && 0 <= j < r.len() && i != j implies r[i] != r[j] by {
                if i < f.len() {
                    assert(f.contains(r[i]));
                }
                if j < f.len() {
                    assert(f.contains(r[j]));
                }
            }
        }
    }
}

/// Whether `rev` is among `revs`.
pub fn has_rev(revs: &Vec<CommitHash>, rev: &CommitHash) -> (b: bool)
    ensures
        b == rev_texts(revs@).contains(rev@),
{
    let mut i: usize = 0;
    while i < revs.len()
        invariant
            i <= revs.len(),
            forall|j: int| 0 <= j < i ==> rev_texts(revs@)[j] != rev@,
        decreases revs.len() - i,
    {
        if revs[i].same(rev) {
            proof {
                assert(rev_texts(revs@)[i as int] == rev@);
            }
            return true;
        }
        i += 1;
    }
    false
}


/// Work to test one revision, which can be told to stop.
pub struct Job {
    pub rev: CommitHash,
    /// Fired when the job is no longer wanted.
    pub ct: CancellationToken,
    pub program: String,
    pub args: Vec<String>,
}

/// Why the manager did not hand out work.
#[derive(Debug, Clone, Copy, PartialEq, Eq, Structural)]
pub enum ManagerError {
    /// A worker has stopped for good.
    WorkerDied,
}

/// What a change of the wanted revisions leads to.
pub struct Dispatch {
    /// The revisions whose jobs were told to stop, before any job of
    /// `jobs` was made.
    pub cancelled: Vec<CommitHash>,
    /// The jobs to hand to the workers, in this order.
    pub jobs: Vec<Job>,
}

/// The revisions of the jobs of `jobs`.
pub open spec fn job_revs(jobs: Seq<Job>) -> Seq<Seq<char>> {
    jobs.map_values(|j: Job| j.rev@)
}

/// Keeps track of the jobs that are under way, and decides which jobs to
/// stop and which to start when the wanted revisions change.
pub struct Manager {
    revs: Vec<CommitHash>,
    cts: Vec<CancellationToken>,
    program: String,
    args: Vec<String>,
}

impl Manager {
    /// The revisions whose jobs are under way, oldest first.
    pub closed spec fn in_flight(&self) -> Seq<Seq<char>> {
        rev_texts(self.revs@)
    }

    /// The program that every job runs.
    pub closed spec fn program(&self) -> Seq<char> {
        self.program@
    }

    /// The arguments of the program.
    pub closed spec fn args(&self) -> Seq<Seq<char>> {
        texts(self.args@)
    }

    /// The invariant of the manager: one handle for each revision under
    /// way, and no revision twice.
    pub closed spec fn wf(&self) -> bool {
        &&& self.revs@.len() == self.cts@.len()
        &&& self.in_flight().no_duplicates()
    }

    /// A manager without jobs, whose jobs will run `program` with `args`.
    pub fn new(program: String, args: Vec<String>) -> (m: Manager)
        ensures
            m.wf(),
            m.in_flight() == Seq::<Seq<char>>::empty(),
            m.program() == program@,
            m.args() == texts(args@),
    {
        let m = Manager { revs: Vec::new(), cts: Vec::new(), program, args };
        proof {
            assert(m.in_flight() =~= Seq::<Seq<char>>::empty());
        }
        m
    }

    /// Whether a job for `rev` is under way.
    pub fn is_in_flight(&self, rev: &CommitHash) -> (b: bool)
        ensures
            b == self.in_flight().contains(rev@),
    {
        has_rev(&self.revs, rev)
    }

    /// Makes `revs` the wanted revisions. Every job whose revision is no
    /// longer wanted is told to stop and forgotten. Then, unless a worker
    /// has died, a job is made for every wanted revision that is neither
    /// under way nor among `cached`.
    pub fn set_revisions(
        &mut self,
        revs: &Vec<CommitHash>,
        cached: &Vec<CommitHash>,
        worker_died: bool,
    ) -> (r: Result<Dispatch, ManagerError>)
        requires
            old(self).wf(),
        ensures
            final(self).wf(),
            final(self).program() == old(self).program(),
            final(self).args() == old(self).args(),
            r is Err <==> worker_died,
            match r {
                Ok(d) => {
                    &&& rev_texts(d.cancelled@) == only(
                        old(self).in_flight(),
                        rev_texts(revs@),
                        false,
                    )
                    &&& job_revs(d.jobs@) == fresh(
                        rev_texts(revs@),
                        old(self).in_flight(),
                        rev_texts(cached@),
                    )
                    &&& forall|i: int|
                        0 <= i < d.jobs@.len() ==> (#[trigger] d.jobs@[i]).program@ == old(
                            self,
                        ).program() && texts(d.jobs@[i].args@) == old(self).args()
                    &&& final(self).in_flight() == only(
                        old(self).in_flight(),
                        rev_texts(revs@),
                        true,
                    ) + fresh(rev_texts(revs@), old(self).in_flight(), rev_texts(cached@))
                },
                Err(e) => e == ManagerError::WorkerDied && final(self).in_flight() == only(
                    old(self).in_flight(),
                    rev_texts(revs@),
                    true,
                ),
            },
    {
        let ghost running = self.in_flight();
        let ghost wanted = rev_texts(revs@);
        let ghost known = rev_texts(cached@);
        let mut kept: Vec<CommitHash> = Vec::new();
        let mut kept_cts: Vec<CancellationToken> = Vec::new();
        let mut cancelled: Vec<CommitHash> = Vec::new();
        let mut i: usize = 0;
        proof {
            assert(running.take(0) =~= Seq::<Seq<char>>::empty());
            assert(rev_texts(kept@) =~= Seq::<Seq<char>>::empty());
            assert(rev_texts(cancelled@) =~= Seq::<Seq<char>>::empty());
        }
        while i < self.revs.len()
            invariant
                self.wf(),
                *self == *old(self),
                running == self.in_flight(),
                wanted == rev_texts(revs@),
                i <= self.revs.len(),
                kept@.len() == kept_cts@.len(),
                rev_texts(kept@) == only(running.take(i as int), wanted, true),
                rev_texts(cancelled@) == only(running.take(i as int), wanted, false),
            decreases self.revs.len() - i,
        {
            let rev = &self.revs[i];
            let ghost before_kept = rev_texts(kept@);
            let ghost before_cancelled = rev_texts(cancelled@);
            proof {
                let next = running.take(i + 1);
                assert(next.last() == rev@);
                assert(next.drop_last() =~= running.take(i as int));
            }
            if has_rev(revs, rev) {
                kept.push(rev.clone());
                kept_cts.push(self.cts[i].clone());
                proof {
                    assert(rev_texts(kept@) =~= before_kept.push(rev@));
                }
            } else {
                self.cts[i].cancel();
                cancelled.push(rev.clone());
                proof {
                    assert(rev_texts(cancelled@) =~= before_cancelled.push(rev@));
                }
            }
            i += 1;
        }
        proof {
            assert(running.take(i as int) =~= running);
            lemma_only(running, wanted, true);
        }
        if worker_died {
            self.revs = kept;
            self.cts = kept_cts;
            return Err(ManagerError::WorkerDied);
        }
        let ghost stay = rev_texts(kept@);
        let mut jobs: Vec<Job> = Vec::new();
        let mut k: usize = 0;
        proof {
            assert(wanted.take(0) =~= Seq::<Seq<char>>::empty());
            assert(job_revs(jobs@) =~= Seq::<Seq<char>>::empty());
            assert(rev_texts(kept@) =~= stay + Seq::<Seq<char>>::empty());
        }
        while k < revs.len()
            invariant
                *self == *old(self),
                running == self.in_flight(),
                wanted == rev_texts(revs@),
                known == rev_texts(cached@),
                k <= revs.len(),
                kept@.len() == kept_cts@.len(),
                job_revs(jobs@) == fresh(wanted.take(k as int), running, known),
                rev_texts(kept@) == stay + job_revs(jobs@),
                forall|j: int|
                    0 <= j < jobs@.len() ==> (#[trigger] jobs@[j]).program@ == self.program()
                        && texts(jobs@[j].args@) == self.args(),
            decreases revs.len() - k,
        {
            let rev = &revs[k];
            let ghost before_jobs = job_revs(jobs@);
            let ghost before_kept = rev_texts(kept@);
            let ghost held = jobs@;
            proof {
                let next = wanted.take(k + 1);
                assert(next.last() == rev@);
                assert(next.drop_last() =~= wanted.take(k as int));
            }
            let listed = has_job(&jobs, rev);
            if !has_rev(&self.revs, rev) && !has_rev(cached, rev) && !listed {
                let ct = CancellationToken::new();
                kept.push(rev.clone());
                kept_cts.push(ct.clone());
                jobs.push(
                    Job {
                        rev: rev.clone(),
                        ct,
                        program: self.program.clone(),
                        args: clone_strings(&self.args),
                    },
                );
                proof {
                    assert(job_revs(jobs@) =~= before_jobs.push(rev@));
                    assert(rev_texts(kept@) =~= before_kept.push(rev@));
                    assert(before_kept.push(rev@) =~= stay + before_jobs.push(rev@));
                    assert forall|j: int| 0 <= j < jobs@.len() implies (
                    #[trigger] jobs@[j]).program@ == self.program() && texts(jobs@[j].args@)
                        == self.args() by {
                        if j < held.len() {
                            assert(jobs@[j] == held[j]);
                        }
                    }
                }
            }
            k += 1;
        }
        proof {
            assert(wanted.take(k as int) =~= wanted);
            lemma_fresh(wanted, running, known);
            let news = job_revs(jobs@);
            let all = stay + news;
            assert forall|a: int, b: int|
                0 <= a < all.len() && 0 <= b < all.len() && a != b implies all[a] != all[b] by {
                if a < stay.len() && b < stay.len() {
                } else if a >= stay.len() && b >= stay.len() {
                    assert(news[a - stay.len()] != news[b - stay.len()]);
                } else if a < stay.len() {
                    assert(stay.contains(all[a]));
                    assert(news.contains(news[b - stay.len()]));
                } else {
                    assert(stay.contains(all[b]));
                    assert(news.contains(news[a - stay.len()]));
                }
            }
        }
        self.revs = kept;
        self.cts = kept_cts;
        Ok(Dispatch { cancelled, jobs })
    }

    /// Forgets the job for `rev`, which has ended.
    pub fn job_finished(&mut self, rev: &CommitHash)
        requires
            old(self).wf(),
        ensures
            final(self).wf(),
            final(self).program() == old(self).program(),
            final(self).args() == old(self).args(),
            final(self).in_flight() == only(old(self).in_flight(), seq![rev@], false),
    {
        let ghost running = self.in_flight();
        let ghost gone = seq![rev@];
        let mut kept: Vec<CommitHash> = Vec::new();
        let mut kept_cts: Vec<CancellationToken> = Vec::new();
        let mut i: usize = 0;
        proof {
            assert(running.take(0) =~= Seq::<Seq<char>>::empty());
            assert(rev_texts(kept@) =~= Seq::<Seq<char>>::empty());
        }
        while i < self.revs.len()
            invariant
                self.wf(),
                *self == *old(self),
                running == self.in_flight(),
                gone == seq![rev@],
                i <= self.revs.len(),
                kept@.len() == kept_cts@.len(),
                rev_texts(kept@) == only(running.take(i as int), gone, false),
            decreases self.revs.len() - i,
        {
            let ghost before_kept = rev_texts(kept@);
            proof {
                let next = running.take(i + 1);
                assert(next.last() == self.revs@[i as int]@);
                assert(next.drop_last() =~= running.take(i as int));
                assert(gone.contains(self.revs@[i as int]@) <==> self.revs@[i as int]@ == rev@) by {
                    if self.revs@[i as int]@ == rev@ {
                        assert(gone[0] == rev@);
                    }
                }
            }
            if !self.revs[i].same(rev) {
                kept.push(self.revs[i].clone());
                kept_cts.push(self.cts[i].clone());
                proof {
                    assert(rev_texts(kept@) =~= before_kept.push(self.revs@[i as int]@));
                }
            }
            i += 1;
        }
        proof {
            assert(running.take(i as int) =~= running);
            lemma_only(running, gone, false);
        }
        self.revs = kept;
        self.cts = kept_cts;
    }
}

/// Whether `jobs` holds a job for `rev`.
fn has_job(jobs: &Vec<Job>, rev: &CommitHash) -> (b: bool)
    ensures
        b == job_revs(jobs@).contains(rev@),
{
    let mut i: usize = 0;
    while i < jobs.len()
        invariant
            i <= jobs.len(),
            forall|j: int| 0 <= j < i ==> job_revs(jobs@)[j] != rev@,
        decreases jobs.len() - i,
    {
        if jobs[i].rev.same(rev) {
            proof {
                assert(job_revs(jobs@)[i as int] == rev@);
            }
            return true;
        }
        i += 1;
    }
    false
}

} // verus!
