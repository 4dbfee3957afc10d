//! The configuration as the user declares it, and its resolution into
//! tests that are ready to run and pools that are ready to be used.
use crate::dag::{
    added, built, child_id, dag_error_text, index_of, is_child_ref, knows, lemma_built_exact, unique_ids, valid_nodes,
    push_quoted, quoted, Dag, DagError, GraphNode,
};
use crate::resource::{
    reversed, stock_of, token_texts, well_kinded, KeyView, Pools, ResourceKey, ResourceMap, Stock,
};
use crate::test::{name_texts, CachePolicy, TestDag, TestName};
use crate::text::{clone_strings, decimal, push_decimal, texts};
use std::collections::hash_map::DefaultHasher;
use std::hash::Hasher;
use vstd::bytes::{spec_u64_to_le_bytes, u64_to_le_bytes};
use vstd::prelude::*;
use vstd::std_specs::hash::DefaultHasherAdditionalSpecFns;
use vstd::string::StringExecFns;
use vstd::utf8::encode_utf8;

verus! {

/// The declaration of a resource, or a test's demand for one.
#[derive(Debug)]
pub enum Resource {
    /// One resource of this name; the same as a count of 1.
    Bare(String),
    /// `count` resources whose token values do not matter.
    Counted { name: String, count: usize },
    /// Resources with the given token values.
    Explicit { name: String, tokens: Vec<String> },
}

impl Resource {
    /// The name of the resource, as a mathematical value.
    pub open spec fn spec_name(&self) -> Seq<char> {
        match self {
            Resource::Bare(n) => n@,
            Resource::Counted { name, count } => name@,
            Resource::Explicit { name, tokens } => name@,
        }
    }

    /// How many resources are declared or demanded, as a mathematical
    /// value.
    pub open spec fn spec_count(&self) -> nat {
        match self {
            Resource::Bare(_) => 1,
            Resource::Counted { name, count } => *count as nat,
            Resource::Explicit { name, tokens } => tokens@.len(),
        }
    }

    /// The name of the resource.
    pub fn name(&self) -> (n: &str)
        ensures
            n@ == self.spec_name(),
    {
        match self {
            Resource::Bare(n) => n.as_str(),
            Resource::Counted { name, count: _ } => name.as_str(),
            Resource::Explicit { name, tokens: _ } => name.as_str(),
        }
    }

    /// How many resources are declared or demanded.
    pub fn count(&self) -> (c: usize)
        ensures
            c == self.spec_count(),
    {
        match self {
            Resource::Bare(_) => 1,
            Resource::Counted { name: _, count } => *count,
            Resource::Explicit { name: _, tokens } => tokens.len(),
        }
    }
}

/// How a test is run.
#[derive(Debug)]
pub enum Command {
    /// A line for the shell.
    Shell(String),
    /// A program and its arguments.
    Raw(Vec<String>),
}

impl Command {
    /// The command names a program: an argument vector is not empty.
    pub open spec fn runnable(&self) -> bool {
        match self {
            Command::Shell(_) => true,
            Command::Raw(args) => args@.len() > 0,
        }
    }

    /// The program to start, as a mathematical value.
    pub open spec fn spec_program(&self) -> Seq<char> {
        match self {
            Command::Shell(_) => "bash"@,
            Command::Raw(args) => args@[0]@,
        }
    }

    /// The arguments of the program, as mathematical values.
    pub open spec fn spec_args(&self) -> Seq<Seq<char>> {
        match self {
            Command::Shell(cmd) => seq!["-c"@, cmd@],
            Command::Raw(args) => texts(args@.skip(1)),
        }
    }

    /// Whether the command names a program.
    pub fn is_runnable(&self) -> (b: bool)
        ensures
            b == self.runnable(),
    {
        match self {
            Command::Shell(_) => true,
            Command::Raw(args) => args.len() > 0,
        }
    }

    /// The program to start: `bash` for a shell line, else the first entry
    /// of the argument vector.
    pub fn program(&self) -> (p: String)
        requires
            self.runnable(),
        ensures
            p@ == self.spec_program(),
    {
        match self {
            Command::Shell(_) => String::from_str("bash"),
            Command::Raw(args) => args[0].clone(),
        }
    }

    /// The arguments of the program: `-c` and the line for a shell line,
    /// else the argument vector without its first entry.
    pub fn args(&self) -> (a: Vec<String>)
        requires
            self.runnable(),
        ensures
            texts(a@) == self.spec_args(),
    {
        match self {
            Command::Shell(cmd) => {
                let mut a: Vec<String> = Vec::new();
                a.push(String::from_str("-c"));
                a.push(cmd.clone());
                proof {
                    assert(texts(a@) =~= seq!["-c"@, cmd@]);
                }
                a
            },
            Command::Raw(args) => {
                let mut a: Vec<String> = Vec::new();
                let mut i: usize = 1;
                while i < args.len()
                    invariant
                        1 <= i <= args.len(),
                        a@.len() == i - 1,
                        forall|j: int| 0 <= j < a@.len() ==> a@[j]@ == args@[j + 1]@,
                    decreases args.len() - i,
                {
                    a.push(args[i].clone());
                    i += 1;
                }
                proof {
                    assert(texts(a@) =~= texts(args@.skip(1)));
                }
                a
            },
        }
    }
}

/// The grace period of a test that declares none, in seconds.
pub fn default_shutdown_grace_period() -> (s: u64)
    ensures
        s == 60,
{
    60
}

/// The cache policy of a test that declares none.
pub fn default_cache_policy() -> (p: CachePolicy)
    ensures
        p == CachePolicy::ByCommit,
{
    CachePolicy::ByCommit
}

/// Whether a test that does not say so needs a checkout.
pub fn default_requires_worktree() -> (b: bool)
    ensures
        b,
{
    true
}

/// The dependencies of a test that declares none.
pub fn default_depends_on() -> (d: Vec<String>)
    ensures
        d@.len() == 0,
{
    Vec::new()
}

/// The declaration of a test.
#[derive(Debug)]
pub struct Test {
    pub name: String,
    pub command: Command,
    pub requires_worktree: bool,
    pub resources: Option<Vec<Resource>>,
    /// Seconds between the request to stop and the forceful kill.
    pub shutdown_grace_period_s: u64,
    pub cache: CachePolicy,
    pub depends_on: Vec<String>,
}

impl GraphNode<String> for Test {
    open spec fn spec_id(&self) -> Seq<char> {
        self.name@
    }

    open spec fn spec_child_ids(&self) -> Seq<Seq<char>> {
        texts(self.depends_on@)
    }

    fn id(&self) -> (r: String) {
        self.name.clone()
    }

    fn child_ids(&self) -> (r: Vec<String>) {
        let mut r: Vec<String> = Vec::new();
        let mut i: usize = 0;
        while i < self.depends_on.len()
            invariant
                i <= self.depends_on.len(),
                r@.len() == i,
                forall|j: int| 0 <= j < i ==> r@[j]@ == self.depends_on@[j]@,
            decreases self.depends_on.len() - i,
        {
            r.push(self.depends_on[i].clone());
            i += 1;
        }
        r
    }

    fn has_id(&self, id: &String) -> (b: bool) {
        self.name == *id
    }
}


/// What is fed to the hasher for a count or a length.
pub open spec fn len_chunk(n: nat) -> Seq<u8> {
    spec_u64_to_le_bytes(n as u64)
}

/// What is fed to the hasher for a string: its length in bytes, then its
/// bytes.
pub open spec fn str_chunks(s: Seq<char>) -> Seq<Seq<u8>> {
    seq![len_chunk(encode_utf8(s).len()), encode_utf8(s)]
}

/// What is fed to the hasher for strings, one after the other.
pub open spec fn strs_chunks(v: Seq<Seq<char>>) -> Seq<Seq<u8>>
    decreases v.len(),
{
    if v.len() == 0 {
        Seq::empty()
    } else {
        strs_chunks(v.drop_last()) + str_chunks(v.last())
    }
}

/// What is fed to the hasher for a list of strings: their number, then
/// each of them.
pub open spec fn list_chunks(v: Seq<Seq<char>>) -> Seq<Seq<u8>> {
    seq![len_chunk(v.len())] + strs_chunks(v)
}

/// What is fed to the hasher for a command.
pub open spec fn command_chunks(c: Command) -> Seq<Seq<u8>> {
    match c {
        Command::Shell(line) => seq![seq![0u8]] + str_chunks(line@),
        Command::Raw(args) => seq![seq![1u8]] + list_chunks(texts(args@)),
    }
}

/// What is fed to the hasher for a demand for a resource.
pub open spec fn resource_chunks(r: Resource) -> Seq<Seq<u8>> {
    match r {
        Resource::Bare(n) => seq![seq![0u8]] + str_chunks(n@),
        Resource::Counted { name, count } => seq![seq![1u8]] + str_chunks(name@) + seq![
            len_chunk(count as nat),
        ],
        Resource::Explicit { name, tokens } => seq![seq![2u8]] + str_chunks(name@) + list_chunks(
            texts(tokens@),
        ),
    }
}

/// What is fed to the hasher for demands, one after the other.
pub open spec fn resources_chunks(v: Seq<Resource>) -> Seq<Seq<u8>>
    decreases v.len(),
{
    if v.len() == 0 {
        Seq::empty()
    } else {
        resources_chunks(v.drop_last()) + resource_chunks(v.last())
    }
}

/// What is fed to the hasher for the demands of a test, if it has any.
pub open spec fn opt_resources_chunks(o: Option<Vec<Resource>>) -> Seq<Seq<u8>> {
    match o {
        None => seq![seq![0u8]],
        Some(v) => seq![seq![1u8], len_chunk(v@.len())] + resources_chunks(v@),
    }
}

/// The byte that stands for a cache policy.
pub open spec fn cache_tag(p: CachePolicy) -> u8 {
    match p {
        CachePolicy::NoCache => 0,
        CachePolicy::ByCommit => 1,
        CachePolicy::ByTree => 2,
    }
}

/// The byte that stands for a truth value.
pub open spec fn bool_tag(b: bool) -> u8 {
    if b {
        1
    } else {
        0
    }
}

/// The canonical encoding of the declaration of a test: what is fed to
/// the hasher for it, field by field.
pub open spec fn decl_chunks(t: Test) -> Seq<Seq<u8>> {
    str_chunks(t.name@) + command_chunks(t.command) + seq![seq![bool_tag(t.requires_worktree)]]
        + opt_resources_chunks(t.resources) + seq![spec_u64_to_le_bytes(t.shutdown_grace_period_s)]
        + seq![seq![cache_tag(t.cache)]] + list_chunks(texts(t.depends_on@))
}

/// What is fed to the hasher for the hashes of the dependencies.
pub open spec fn dep_chunks(hashes: Seq<u64>) -> Seq<Seq<u8>> {
    hashes.map_values(|h: u64| spec_u64_to_le_bytes(h))
}

/// The hash of a test: that of the encoding of its own declaration
/// followed by the hashes of its dependencies, in their order.
pub open spec fn config_hash_of(own: Seq<Seq<u8>>, deps: Seq<u64>) -> u64 {
    DefaultHasher::spec_finish(own + dep_chunks(deps))
}

fn write_u64(h: &mut DefaultHasher, x: u64)
    ensures
        final(h)@ == old(h)@.push(spec_u64_to_le_bytes(x)),
{
    let b = u64_to_le_bytes(x);
    h.write(b.as_slice());
}

fn write_byte(h: &mut DefaultHasher, x: u8)
    ensures
        final(h)@ == old(h)@.push(seq![x]),
{
    let mut b: Vec<u8> = Vec::new();
    b.push(x);
    proof {
        assert(b@ =~= seq![x]);
    }
    h.write(b.as_slice());
}

fn write_len(h: &mut DefaultHasher, n: usize)
    ensures
        final(h)@ == old(h)@.push(len_chunk(n as nat)),
{
    write_u64(h, n as u64);
}

fn write_str(h: &mut DefaultHasher, s: &str)
    ensures
        final(h)@ == old(h)@ + str_chunks(s@),
{
    let bytes = s.as_bytes();
    write_len(h, bytes.len());
    h.write(bytes);
    proof {
        assert(h@ =~= old(h)@ + str_chunks(s@));
    }
}

fn write_list(h: &mut DefaultHasher, v: &Vec<String>)
    ensures
        final(h)@ == old(h)@ + list_chunks(texts(v@)),
{
    write_len(h, v.len());
    let ghost start = h@;
    let ghost all = texts(v@);
    let mut i: usize = 0;
    proof {
        assert(all.take(0) =~= Seq::<Seq<char>>::empty());
        assert(start + strs_chunks(all.take(0)) =~= start);
    }
    while i < v.len()
        invariant
            i <= v.len(),
            all == texts(v@),
            h@ == start + strs_chunks(all.take(i as int)),
        decreases v.len() - i,
    {
        write_str(h, v[i].as_str());
        proof {
            let next = all.take(i + 1);
            assert(next.last() == v@[i as int]@);
            assert(next.drop_last() =~= all.take(i as int));
            assert(h@ =~= start + strs_chunks(next));
        }
        i += 1;
    }
    proof {
        assert(all.take(v.len() as int) =~= all);
        assert(h@ =~= old(h)@ + list_chunks(all));
    }
}


fn write_command(h: &mut DefaultHasher, c: &Command)
    ensures
        final(h)@ == old(h)@ + command_chunks(*c),
{
    match c {
        Command::Shell(line) => {
            write_byte(h, 0);
            write_str(h, line.as_str());
            proof {
                assert(h@ =~= old(h)@ + command_chunks(*c));
            }
        },
        Command::Raw(args) => {
            write_byte(h, 1);
            write_list(h, args);
            proof {
                assert(h@ =~= old(h)@ + command_chunks(*c));
            }
        },
    }
}

fn write_resource(h: &mut DefaultHasher, r: &Resource)
    ensures
        final(h)@ == old(h)@ + resource_chunks(*r),
{
    match r {
        Resource::Bare(n) => {
            write_byte(h, 0);
            write_str(h, n.as_str());
            proof {
                assert(h@ =~= old(h)@ + resource_chunks(*r));
            }
        },
        Resource::Counted { name, count } => {
            write_byte(h, 1);
            write_str(h, name.as_str());
            write_len(h, *count);
            proof {
                assert(h@ =~= old(h)@ + resource_chunks(*r));
            }
        },
        Resource::Explicit { name, tokens } => {
            write_byte(h, 2);
            write_str(h, name.as_str());
            write_list(h, tokens);
            proof {
                assert(h@ =~= old(h)@ + resource_chunks(*r));
            }
        },
    }
}

fn write_resources(h: &mut DefaultHasher, o: &Option<Vec<Resource>>)
    ensures
        final(h)@ == old(h)@ + opt_resources_chunks(*o),
{
    match o {
        None => {
            write_byte(h, 0);
            proof {
                assert(h@ =~= old(h)@ + opt_resources_chunks(*o));
            }
        },
        Some(v) => {
            write_byte(h, 1);
            write_len(h, v.len());
            let ghost start = h@;
            let mut i: usize = 0;
            proof {
                assert(v@.take(0) =~= Seq::<Resource>::empty());
                assert(start + resources_chunks(v@.take(0)) =~= start);
            }
            while i < v.len()
                invariant
                    i <= v.len(),
                    h@ == start + resources_chunks(v@.take(i as int)),
                decreases v.len() - i,
            {
                write_resource(h, &v[i]);
                proof {
                    let next = v@.take(i + 1);
                    assert(next.last() == v@[i as int]);
                    assert(next.drop_last() =~= v@.take(i as int));
                    assert(h@ =~= start + resources_chunks(next));
                }
                i += 1;
            }
            proof {
                assert(v@.take(v.len() as int) =~= v@);
                assert(h@ =~= old(h)@ + opt_resources_chunks(*o));
            }
        },
    }
}

/// The hash of a test whose declaration is `decl` and whose dependencies
/// have the hashes `dep_hashes`, in the order in which `decl` names them.
pub fn config_hash(decl: &Test, dep_hashes: &Vec<u64>) -> (r: u64)
    ensures
        r == config_hash_of(decl_chunks(*decl), dep_hashes@),
{
    let mut h = DefaultHasher::new();
    write_str(&mut h, decl.name.as_str());
    write_command(&mut h, &decl.command);
    write_byte(&mut h, if decl.requires_worktree { 1 } else { 0 });
    write_resources(&mut h, &decl.resources);
    write_u64(&mut h, decl.shutdown_grace_period_s);
    write_byte(
        &mut h,
        match decl.cache {
            CachePolicy::NoCache => 0,
            CachePolicy::ByCommit => 1,
            CachePolicy::ByTree => 2,
        },
    );
    write_list(&mut h, &decl.depends_on);
    proof {
        assert(h@ =~= decl_chunks(*decl));
    }
    let ghost own = h@;
    let mut i: usize = 0;
    proof {
        assert(own + dep_chunks(dep_hashes@.take(0)) =~= own);
    }
    while i < dep_hashes.len()
        invariant
            i <= dep_hashes.len(),
            h@ == own + dep_chunks(dep_hashes@.take(i as int)),
        decreases dep_hashes.len() - i,
    {
        write_u64(&mut h, dep_hashes[i]);
        proof {
            assert(dep_chunks(dep_hashes@.take(i + 1)) =~= dep_chunks(
                dep_hashes@.take(i as int),
            ).push(spec_u64_to_le_bytes(dep_hashes@[i as int])));
        }
        i += 1;
    }
    proof {
        assert(dep_hashes@.take(i as int) =~= dep_hashes@);
    }
    h.finish()
}


/// Why a configuration cannot be resolved.
#[derive(Debug)]
pub enum ConfigError {
    /// The tests and their dependencies do not form a DAG.
    Dag(DagError<String>),
    /// The test `test` demands the resource `resource` twice.
    DuplicateResource { test: String, resource: String },
    /// The test `test` demands the resource `resource`, which is not
    /// declared.
    UndefinedResource { resource: String, test: String },
}

/// What `ConfigError::message` says of each error.
pub open spec fn config_error_text(e: ConfigError) -> Seq<char> {
    match e {
        ConfigError::Dag(e) => "parsing test dependency graph: "@ + dag_error_text(e),
        ConfigError::DuplicateResource { test, resource } => "parsing tests: duplicate resource reference "@
            + quoted(resource@),
        ConfigError::UndefinedResource { resource, test } => "undefined resource "@ + quoted(
            resource@,
        ) + " referenced in test "@ + quoted(test@),
    }
}

impl ConfigError {
    /// The error in words.
    pub fn message(&self) -> (m: String)
        ensures
            m@ == config_error_text(*self),
    {
        match self {
            ConfigError::Dag(e) => {
                let mut m = String::from_str("parsing test dependency graph: ");
                let inner = e.message();
                m.append(inner.as_str());
                m
            },
            ConfigError::DuplicateResource { test: _, resource } => {
                let mut m = String::from_str("parsing tests: duplicate resource reference ");
                push_quoted(&mut m, resource.as_str());
                m
            },
            ConfigError::UndefinedResource { resource, test } => {
                let mut m = String::from_str("undefined resource ");
                push_quoted(&mut m, resource.as_str());
                m.append(" referenced in test ");
                push_quoted(&mut m, test.as_str());
                proof {
                    assert(m@ =~= config_error_text(*self));
                }
                m
            },
        }
    }
}

/// The demands of a test, none if it declares none.
pub open spec fn demands(t: Test) -> Seq<Resource> {
    match t.resources {
        Some(v) => v@,
        None => Seq::empty(),
    }
}

/// No two of the demands name the same resource.
pub open spec fn names_distinct(rs: Seq<Resource>) -> bool {
    forall|i: int, j: int|
        0 <= i < j < rs.len() ==> (#[trigger] rs[i]).spec_name() != (#[trigger] rs[j]).spec_name()
}

/// Some demand names the resource `name`.
pub open spec fn demanded(rs: Seq<Resource>, name: Seq<char>) -> bool {
    exists|i: int| 0 <= i < rs.len() && (#[trigger] rs[i]).spec_name() == name
}

/// How many resources `name` a demand for it asks for.
pub open spec fn demand_of(rs: Seq<Resource>, name: Seq<char>) -> usize {
    let i = choose|i: int| 0 <= i < rs.len() && (#[trigger] rs[i]).spec_name() == name;
    rs[i].spec_count() as usize
}

/// `name` is the first resource, in declaration order, that is demanded a
/// second time.
pub open spec fn first_repeated(rs: Seq<Resource>, name: Seq<char>) -> bool {
    exists|j: int|
        0 <= j < rs.len() && (#[trigger] rs[j]).spec_name() == name && names_distinct(rs.take(j))
            && demanded(rs.take(j), name)
}

/// What a job of the test holds while it runs: what it demands of each
/// resource, and one checkout if it needs one.
pub open spec fn needs_of(t: Test) -> Map<KeyView, usize> {
    Map::new(
        |k: KeyView|
            match k {
                KeyView::Worktree => t.requires_worktree,
                KeyView::UserToken(name) => demanded(demands(t), name),
            },
        |k: KeyView|
            match k {
                KeyView::Worktree => 1usize,
                KeyView::UserToken(name) => demand_of(demands(t), name),
            },
    )
}

/// The hashes of the tests named `deps`, in that order.
pub open spec fn dep_hashes(deps: Seq<Seq<char>>, tests: Seq<crate::test::Test>) -> Seq<u64> {
    Seq::new(deps.len(), |k: int| tests[index_of(tests, deps[k])].config_hash)
}

/// `spec` is the test that the declaration `decl` resolves to, given the
/// tests `others` that it depends on.
pub open spec fn resolves_to(decl: Test, others: Seq<crate::test::Test>, spec: crate::test::Test) -> bool {
    &&& spec.name@ == decl.name@
    &&& spec.program@ == decl.command.spec_program()
    &&& texts(spec.args@) == decl.command.spec_args()
    &&& spec.needs_resources.wf()
    &&& spec.needs_resources@ == needs_of(decl)
    &&& spec.shutdown_grace_period_s == decl.shutdown_grace_period_s
    &&& spec.cache_policy == decl.cache
    &&& spec.config_hash == config_hash_of(
        decl_chunks(decl),
        dep_hashes(texts(decl.depends_on@), others),
    )
    &&& name_texts(spec.depends_on@) == texts(decl.depends_on@)
}


/// With distinct names, the demand found for a name is the one that
/// `demand_of` reads.
pub proof fn lemma_demand_of(rs: Seq<Resource>, i: int)
    requires
        names_distinct(rs),
        0 <= i < rs.len(),
    ensures
        demanded(rs, rs[i].spec_name()),
        demand_of(rs, rs[i].spec_name()) == rs[i].spec_count() as usize,
{
    let name = rs[i].spec_name();
    let j = choose|j: int| 0 <= j < rs.len() && (#[trigger] rs[j]).spec_name() == name;
    if j < i {
        assert(rs[j].spec_name() != rs[i].spec_name());
    }
    if i < j {
        assert(rs[i].spec_name() != rs[j].spec_name());
    }
}

impl Test {
    /// The declaration can be resolved against `others`: its command names
    /// a program, and `others` holds every test it depends on.
    pub open spec fn resolvable(&self, others: Seq<crate::test::Test>) -> bool {
        &&& self.command.runnable()
        &&& forall|k: int|
            0 <= k < self.depends_on@.len() ==> knows(others, (#[trigger] self.depends_on@[k])@)
    }

    /// The demands of the test as a map, or the first resource that is
    /// demanded twice.
    fn needs(&self) -> (r: Result<ResourceMap<usize>, String>)
        ensures
            r is Ok <==> names_distinct(demands(*self)),
            match r {
                Ok(m) => m.wf() && m@ == needs_of(*self),
                Err(name) => first_repeated(demands(*self), name@),
            },
    {
        let ghost rs = demands(*self);
        let mut m: ResourceMap<usize> = ResourceMap::new();
        if let Some(v) = &self.resources {
            let mut i: usize = 0;
            proof {
                assert(rs.take(0) =~= Seq::<Resource>::empty());
            }
            while i < v.len()
                invariant
                    rs == v@,
                    rs == demands(*self),
                    i <= v.len(),
                    m.wf(),
                    names_distinct(rs.take(i as int)),
                    forall|k: KeyView|
                        m@.dom().contains(k) <==> k is UserToken && demanded(
                            rs.take(i as int),
                            k->UserToken_0,
                        ),
                    forall|j: int|
                        0 <= j < i ==> m@[KeyView::UserToken((#[trigger] rs[j]).spec_name())]
                            == rs[j].spec_count() as usize,
                decreases v.len() - i,
            {
                let name = v[i].name();
                let key = ResourceKey::UserToken(String::from_str(name));
                let ghost front = rs.take(i as int);
                let ghost before = m@;
                if m.contains_key(&key) {
                    proof {
                        assert(rs[i as int].spec_name() == name@);
                        assert(key@ == KeyView::UserToken(name@));
                        assert(demanded(front, name@));
                        let j = choose|j: int|
                            0 <= j < front.len() && (#[trigger] front[j]).spec_name() == name@;
                        assert(front[j] == rs[j]);
                        assert(rs[j].spec_name() == rs[i as int].spec_name());
                        assert(first_repeated(rs, name@));
                    }
                    return Err(String::from_str(name));
                }
                let _ = m.insert(key, v[i].count());
                proof {
                    let next = rs.take(i + 1);
                    assert(next[i as int] == rs[i as int]);
                    assert forall|a: int, b: int| 0 <= a < b < next.len() implies (
                    #[trigger] next[a]).spec_name() != (#[trigger] next[b]).spec_name() by {
                        assert(next[a] == rs[a] && next[b] == rs[b]);
                        if b < i {
                            assert(front[a] == rs[a] && front[b] == rs[b]);
                        } else {
                            assert(front[a] == rs[a]);
                            assert(!demanded(front, name@));
                        }
                    }
                    assert forall|k: KeyView|
                        m@.dom().contains(k) <==> k is UserToken && demanded(
                            next,
                            k->UserToken_0,
                        ) by {
                        if k is UserToken {
                            let n = k->UserToken_0;
                            if demanded(front, n) {
                                let j = choose|j: int|
                                    0 <= j < front.len() && (#[trigger] front[j]).spec_name() == n;
                                assert(next[j] == front[j]);
                            }
                            if demanded(next, n) && n != name@ {
                                let j = choose|j: int|
                                    0 <= j < next.len() && (#[trigger] next[j]).spec_name() == n;
                                assert(front[j] == next[j]);
                            }
                        }
                    }
                    assert forall|j: int| 0 <= j < i + 1 implies m@[KeyView::UserToken(
                        (#[trigger] rs[j]).spec_name(),
                    )] == rs[j].spec_count() as usize by {
                        if j < i {
                            assert(front[j] == rs[j]);
                            assert(demanded(front, rs[j].spec_name()));
                        }
                    }
                }
                i += 1;
            }
            proof {
                assert(rs.take(v.len() as int) =~= rs);
            }
        }
        proof {
            assert forall|k: KeyView| m@.dom().contains(k) implies k is UserToken && #[trigger] m@[k]
                == demand_of(rs, k->UserToken_0) by {
                let n = k->UserToken_0;
                let j = choose|j: int| 0 <= j < rs.len() && (#[trigger] rs[j]).spec_name() == n;
                lemma_demand_of(rs, j);
            }
        }
        if self.requires_worktree {
            let _ = m.insert(ResourceKey::Worktree, 1);
        }
        proof {
            assert(m@ =~= needs_of(*self));
        }
        Ok(m)
    }

    /// Resolves the declaration into a test that is ready to run. `others`
    /// holds the tests that were resolved before, among them all that this
    /// one depends on. Fails when the test demands a resource twice.
    pub fn parse(&self, others: &TestDag) -> (r: Result<crate::test::Test, ConfigError>)
        requires
            others.wf(),
            self.resolvable(others@),
        ensures
            r is Ok <==> names_distinct(demands(*self)),
            match r {
                Ok(spec) => resolves_to(*self, others@, spec),
                Err(ConfigError::DuplicateResource { test, resource }) => test@ == self.name@
                    && first_repeated(demands(*self), resource@),
                Err(_) => false,
            },
    {
        let needs_resources = match self.needs() {
            Ok(m) => m,
            Err(resource) => {
                return Err(ConfigError::DuplicateResource { test: self.name.clone(), resource });
            },
        };
        let ghost deps = texts(self.depends_on@);
        let mut hashes: Vec<u64> = Vec::new();
        let mut depends_on: Vec<TestName> = Vec::new();
        let mut k: usize = 0;
        while k < self.depends_on.len()
            invariant
                others.wf(),
                self.resolvable(others@),
                deps == texts(self.depends_on@),
                k <= self.depends_on.len(),
                hashes@.len() == k,
                depends_on@.len() == k,
                forall|j: int| 0 <= j < k ==> hashes@[j] == dep_hashes(deps, others@)[j],
                forall|j: int| 0 <= j < k ==> depends_on@[j]@ == deps[j],
            decreases self.depends_on.len() - k,
        {
            let dep = TestName::new(self.depends_on[k].clone());
            proof {
                assert(knows(others@, self.depends_on@[k as int]@));
            }
            match others.node(&dep) {
                Some(t) => {
                    hashes.push(t.config_hash);
                },
                None => {
                    proof {
                        assert(false);
                    }
                },
            }
            depends_on.push(dep);
            k += 1;
        }
        proof {
            assert(hashes@ =~= dep_hashes(deps, others@));
            assert(name_texts(depends_on@) =~= deps);
        }
        let config_hash = config_hash(self, &hashes);
        Ok(
            crate::test::Test {
                name: TestName::new(self.name.clone()),
                program: self.command.program(),
                args: self.command.args(),
                needs_resources,
                shutdown_grace_period_s: self.shutdown_grace_period_s,
                cache_policy: self.cache,
                config_hash,
                depends_on,
            },
        )
    }
}


/// A configuration: how many checkouts to keep, the resources that exist,
/// and the tests.
#[derive(Debug)]
pub struct Config {
    pub num_worktrees: usize,
    pub resources: Option<Vec<Resource>>,
    pub tests: Vec<Test>,
}

/// The tokens that a declaration puts into the pool: the given ones, or
/// `<name>-<i>` for each `i` below the count.
pub open spec fn token_list(r: Resource) -> Seq<Seq<char>> {
    match r {
        Resource::Explicit { name, tokens } => texts(tokens@),
        _ => Seq::new(r.spec_count(), |i: int| r.spec_name() + "-"@ + decimal(i as nat)),
    }
}

/// The tokens of each declared resource. A later declaration of a name
/// replaces an earlier one.
pub open spec fn declared(rs: Seq<Resource>) -> Map<KeyView, Seq<Seq<char>>>
    decreases rs.len(),
{
    if rs.len() == 0 {
        Map::empty()
    } else {
        declared(rs.drop_last()).insert(
            KeyView::UserToken(rs.last().spec_name()),
            token_list(rs.last()),
        )
    }
}

/// Only resources that the user declared have tokens.
pub proof fn lemma_declared_keys(rs: Seq<Resource>)
    ensures
        forall|k: KeyView| declared(rs).dom().contains(k) ==> k is UserToken,
    decreases rs.len(),
{
    if rs.len() > 0 {
        lemma_declared_keys(rs.drop_last());
        let front = declared(rs.drop_last());
        let key = KeyView::UserToken(rs.last().spec_name());
        assert(declared(rs) == front.insert(key, token_list(rs.last())));
        assert forall|k: KeyView| declared(rs).dom().contains(k) implies k is UserToken by {
            if k != key {
                assert(front.dom().contains(k));
            }
        }
    } else {
        assert(declared(rs) == Map::<KeyView, Seq<Seq<char>>>::empty());
    }
}

/// The token strings of a map of token vectors.
pub open spec fn token_map(m: Map<KeyView, Vec<String>>) -> Map<KeyView, Seq<Seq<char>>> {
    m.map_values(|v: Vec<String>| texts(v@))
}

/// The declarations of a configuration, none if it has none.
pub open spec fn declarations(c: Config) -> Seq<Resource> {
    match c.resources {
        Some(v) => v@,
        None => Seq::empty(),
    }
}

/// The tokens that the declaration `r` puts into the pool.
fn tokens_of(r: &Resource) -> (t: Vec<String>)
    ensures
        texts(t@) == token_list(*r),
{
    match r {
        Resource::Explicit { name: _, tokens } => clone_strings(tokens),
        _ => {
            let n = r.count();
            let name = r.name();
            let mut t: Vec<String> = Vec::new();
            let mut i: usize = 0;
            while i < n
                invariant
                    i <= n,
                    n == r.spec_count(),
                    name@ == r.spec_name(),
                    t@.len() == i,
                    forall|j: int|
                        0 <= j < i ==> (#[trigger] t@[j])@ == r.spec_name() + "-"@ + decimal(
                            j as nat,
                        ),
                decreases n - i,
            {
                let mut s = String::from_str(name);
                s.append("-");
                push_decimal(&mut s, i);
                t.push(s);
                i += 1;
            }
            proof {
                assert(texts(t@) =~= token_list(*r));
            }
            t
        },
    }
}

impl Config {
    /// The tokens of each declared resource, by the resource's key.
    pub fn parse_resource_tokens(&self) -> (m: ResourceMap<Vec<String>>)
        ensures
            m.wf(),
            token_map(m@) == declared(declarations(*self)),
    {
        let ghost rs = declarations(*self);
        let mut m: ResourceMap<Vec<String>> = ResourceMap::new();
        proof {
            assert(token_map(m@) =~= declared(Seq::<Resource>::empty()));
        }
        if let Some(v) = &self.resources {
            let mut i: usize = 0;
            proof {
                assert(rs.take(0) =~= Seq::<Resource>::empty());
            }
            while i < v.len()
                invariant
                    rs == v@,
                    i <= v.len(),
                    m.wf(),
                    token_map(m@) == declared(rs.take(i as int)),
                decreases v.len() - i,
            {
                let key = ResourceKey::UserToken(String::from_str(v[i].name()));
                let tokens = tokens_of(&v[i]);
                let ghost before = m@;
                let _ = m.insert(key, tokens);
                proof {
                    let next = rs.take(i + 1);
                    assert(next.last() == rs[i as int]);
                    assert(next.drop_last() =~= rs.take(i as int));
                    assert(token_map(m@) =~= token_map(before).insert(key@, texts(tokens@)));
                }
                i += 1;
            }
            proof {
                assert(rs.take(v.len() as int) =~= rs);
            }
        }
        m
    }
}


/// The first `n` declarations in the order `order` resolve to `specs`,
/// each against the tests resolved before it.
pub open spec fn resolved_upto(
    decls: Seq<Test>,
    order: Seq<usize>,
    specs: Seq<crate::test::Test>,
    n: int,
) -> bool {
    &&& specs.len() == n
    &&& forall|p: int|
        0 <= p < n ==> resolves_to(decls[order[p] as int], specs.take(p), #[trigger] specs[p])
}

/// The test `test` demands the resource `resource`, which is not among the
/// declared `keys`.
pub open spec fn undeclared_demand(
    decls: Seq<Test>,
    keys: Set<KeyView>,
    test: Seq<char>,
    resource: Seq<char>,
) -> bool {
    &&& !keys.contains(KeyView::UserToken(resource))
    &&& exists|i: int|
        0 <= i < decls.len() && (#[trigger] decls[i]).name@ == test && demanded(
            demands(decls[i]),
            resource,
        )
}

/// Every resource that some test demands is among the declared `keys`.
pub open spec fn demands_declared(decls: Seq<Test>, keys: Set<KeyView>) -> bool {
    forall|i: int, name: Seq<char>|
        0 <= i < decls.len() && #[trigger] demanded(demands(decls[i]), name)
            ==> keys.contains(KeyView::UserToken(name))
}

/// No test demands a resource twice.
pub open spec fn all_names_distinct(decls: Seq<Test>) -> bool {
    forall|i: int| 0 <= i < decls.len() ==> names_distinct(demands(#[trigger] decls[i]))
}

/// Every test has a command that names a program.
pub open spec fn all_runnable(decls: Seq<Test>) -> bool {
    forall|i: int| 0 <= i < decls.len() ==> (#[trigger] decls[i]).command.runnable()
}

/// What resolving the declarations `decls` against the declared
/// resources `keys` may return.
pub open spec fn tests_resolved(
    decls: Seq<Test>,
    keys: Set<KeyView>,
    r: Result<TestDag, ConfigError>,
) -> bool {
    match r {
        Ok(dag) => {
            &&& dag.wf()
            &&& all_names_distinct(decls)
            &&& demands_declared(decls, keys)
            &&& exists|d: Dag<String, Test>|
                d.wf() && d@ == decls && #[trigger] resolved_upto(
                    decls,
                    d.bottom_up_order(),
                    dag@,
                    decls.len() as int,
                )
        },
        Err(ConfigError::Dag(e)) => built::<String, Test>(decls, Err(e)),
        Err(ConfigError::DuplicateResource { test, resource }) => {
            &&& valid_nodes(decls)
            &&& exists|i: int|
                0 <= i < decls.len() && (#[trigger] decls[i]).name@ == test@ && first_repeated(
                    demands(decls[i]),
                    resource@,
                )
        },
        Err(ConfigError::UndefinedResource { resource, test }) => {
            &&& valid_nodes(decls)
            &&& all_names_distinct(decls)
            &&& undeclared_demand(decls, keys, test@, resource@)
        },
    }
}

/// Resolution succeeds exactly when the tests form a DAG, no test demands
/// a resource twice, and every demanded resource is declared.
pub proof fn lemma_tests_resolved_exact(
    decls: Seq<Test>,
    keys: Set<KeyView>,
    r: Result<TestDag, ConfigError>,
)
    requires
        tests_resolved(decls, keys, r),
    ensures
        r is Ok <==> valid_nodes(decls) && all_names_distinct(decls) && demands_declared(decls, keys),
{
    match r {
        Ok(dag) => {
            let d = choose|d: Dag<String, Test>|
                d.wf() && d@ == decls && #[trigger] resolved_upto(
                    decls,
                    d.bottom_up_order(),
                    dag@,
                    decls.len() as int,
                );
            d.lemma_wf();
        },
        Err(ConfigError::Dag(e)) => {
            lemma_built_exact::<String, Test>(decls, Err(e));
        },
        Err(ConfigError::DuplicateResource { test, resource }) => {
            let i = choose|i: int|
                0 <= i < decls.len() && (#[trigger] decls[i]).name@ == test@ && first_repeated(
                    demands(decls[i]),
                    resource@,
                );
            let rs = demands(decls[i]);
            let j = choose|j: int|
                0 <= j < rs.len() && (#[trigger] rs[j]).spec_name() == resource@ && names_distinct(
                    rs.take(j),
                ) && demanded(rs.take(j), resource@);
            let front = rs.take(j);
            let a = choose|a: int|
                0 <= a < front.len() && (#[trigger] front[a]).spec_name() == resource@;
            assert(front[a] == rs[a]);
            assert(rs[a].spec_name() == rs[j].spec_name());
        },
        Err(ConfigError::UndefinedResource { resource, test }) => {
            let i = choose|i: int|
                0 <= i < decls.len() && (#[trigger] decls[i]).name@ == test@ && demanded(
                    demands(decls[i]),
                    resource@,
                );
            assert(demanded(demands(decls[i]), resource@));
        },
    }
}


/// Resolves the tests of `decl_dag` one by one, each after the tests it
/// depends on.
fn resolve_all(decl_dag: &Dag<String, Test>) -> (r: Result<TestDag, ConfigError>)
    requires
        decl_dag.wf(),
        all_runnable(decl_dag@),
    ensures
        match r {
            Ok(dag) => {
                &&& dag.wf()
                &&& all_names_distinct(decl_dag@)
                &&& resolved_upto(
                    decl_dag@,
                    decl_dag.bottom_up_order(),
                    dag@,
                    decl_dag@.len() as int,
                )
            },
            Err(ConfigError::DuplicateResource { test, resource }) => exists|i: int|
                0 <= i < decl_dag@.len() && (#[trigger] decl_dag@[i]).name@ == test@
                    && first_repeated(demands(decl_dag@[i]), resource@),
            Err(_) => false,
        },
{
    let ghost decls = decl_dag@;
    let ghost order = decl_dag.bottom_up_order();
    let n = decl_dag.len();
    proof {
        decl_dag.lemma_bottom_up();
        decl_dag.lemma_wf();
    }
    let mut it = decl_dag.bottom_up();
    let mut parsed: TestDag = Dag::empty();
    let mut p: usize = 0;
    while p < n
        invariant
            decl_dag.wf(),
            all_runnable(decls),
            decls == decl_dag@,
            order == decl_dag.bottom_up_order(),
            n == decls.len(),
            order.len() == n,
            order.no_duplicates(),
            unique_ids(decls),
            forall|q: int| 0 <= q < order.len() ==> (#[trigger] order[q]) < decls.len(),
            forall|x: usize| x < decls.len() ==> #[trigger] order.contains(x),
            forall|q: int, k: int|
                0 <= q < order.len() && is_child_ref(decls, order[q] as int, k)
                    ==> #[trigger] decl_dag.child_comes_before(order, q, k),
            p <= n,
            it.wf(),
            it.dag() == decl_dag,
            it.remaining() == order.skip(p as int),
            parsed.wf(),
            resolved_upto(decls, order, parsed@, p as int),
            forall|q: int| 0 <= q < p ==> names_distinct(demands(decls[(#[trigger] order[q]) as int])),
        decreases n - p,
    {
        let ghost done = parsed@;
        let ghost at = order[p as int];
        proof {
            assert(order.skip(p as int)[0] == at);
        }
        let next = it.next();
        match next {
            Some(decl) => {
                proof {
                    assert(*decl == decls[at as int]);
                    assert(order.skip(p as int).drop_first() =~= order.skip(p + 1));
                    assert forall|k: int| 0 <= k < decl.depends_on@.len() implies knows(
                        done,
                        (#[trigger] decl.depends_on@[k])@,
                    ) by {
                        assert(is_child_ref(decls, order[p as int] as int, k));
                        assert(decl_dag.child_comes_before(order, p as int, k));
                        let q = choose|q: int|
                            0 <= q < p && (#[trigger] order[q]) < decls.len()
                                && decls[order[q] as int].spec_id() == child_id(
                                decls,
                                order[p as int] as int,
                                k,
                            );
                        assert(resolves_to(decls[order[q] as int], done.take(q), done[q]));
                        assert(done[q].spec_id() == decl.depends_on@[k]@);
                    }
                }
                let spec = match decl.parse(&parsed) {
                    Ok(spec) => spec,
                    Err(e) => {
                        return Err(e);
                    },
                };
                proof {
                    assert(!knows(done, spec.spec_id())) by {
                        if knows(done, spec.spec_id()) {
                            let q = choose|q: int|
                                0 <= q < done.len() && (#[trigger] done[q]).spec_id()
                                    == spec.spec_id();
                            assert(resolves_to(decls[order[q] as int], done.take(q), done[q]));
                            assert(decls[order[q] as int].spec_id() == decls[at as int].spec_id());
                            assert(order[q] != order[p as int]);
                            let a = order[q] as int;
                            let b = at as int;
                            if a < b {
                                assert(decls[a].spec_id() != decls[b].spec_id());
                            } else {
                                assert(decls[b].spec_id() != decls[a].spec_id());
                            }
                        }
                    }
                    assert forall|k: int| 0 <= k < spec.spec_child_ids().len() implies knows(
                        done,
                        #[trigger] spec.spec_child_ids()[k],
                    ) by {
                        assert(spec.spec_child_ids()[k] == decl.depends_on@[k]@);
                    }
                }
                let ghost spec0 = spec;
                match parsed.with_node(spec) {
                    Ok(d) => {
                        parsed = d;
                    },
                    Err(e) => {
                        proof {
                            let r: Result<TestDag, DagError<TestName>> = Err(e);
                            assert(added(done, spec0, r));
                            match e {
                                DagError::DuplicateId(_) => {},
                                DagError::NoSuchChild { parent, child } => {
                                    let k = choose|k: int|
                                        0 <= k < spec0.spec_child_ids().len()
                                            && spec0.spec_child_ids()[k] == child@;
                                    assert(knows(done, spec0.spec_child_ids()[k]));
                                },
                                DagError::Cycle(_) => {
                                    let k = choose|k: int|
                                        0 <= k < spec0.spec_child_ids().len()
                                            && spec0.spec_child_ids()[k] == spec0.spec_id();
                                    assert(knows(done, spec0.spec_child_ids()[k]));
                                },
                            }
                            assert(false);
                        }
                        return Err(
                            ConfigError::DuplicateResource {
                                test: String::new(),
                                resource: String::new(),
                            },
                        );
                    },
                }
                proof {
                    assert(parsed@ == done.push(spec0));
                    assert forall|q: int| 0 <= q < p + 1 implies resolves_to(
                        decls[order[q] as int],
                        parsed@.take(q),
                        #[trigger] parsed@[q],
                    ) by {
                        if q < p {
                            assert(parsed@[q] == done[q]);
                            assert(parsed@.take(q) =~= done.take(q));
                            assert(resolves_to(decls[order[q] as int], done.take(q), done[q]));
                        } else {
                            assert(parsed@.take(q) =~= done);
                        }
                    }
                }
            },
            None => {
                proof {
                    assert(false);
                }
            },
        }
        p += 1;
    }
    proof {
        assert forall|i: int| 0 <= i < decls.len() implies names_distinct(
            demands(#[trigger] decls[i]),
        ) by {
            assert(order.contains(i as usize));
            let q = choose|q: int| 0 <= q < order.len() && order[q] == i as usize;
            assert(names_distinct(demands(decls[order[q] as int])));
        }
    }
    Ok(parsed)
}


/// The first demand of `spec` for a resource that `tokens` does not
/// declare, if there is one.
fn undeclared_in(spec: &crate::test::Test, tokens: &ResourceMap<Vec<String>>) -> (r: Option<String>)
    requires
        spec.needs_resources.wf(),
        tokens.wf(),
    ensures
        match r {
            Some(name) => spec.needs_resources@.dom().contains(KeyView::UserToken(name@))
                && !tokens@.dom().contains(KeyView::UserToken(name@)),
            None => forall|name: Seq<char>| #[trigger]
                spec.needs_resources@.dom().contains(KeyView::UserToken(name))
                    ==> tokens@.dom().contains(KeyView::UserToken(name)),
        },
{
    let needs = &spec.needs_resources;
    let mut i: usize = 0;
    while i < needs.len()
        invariant
            *needs == spec.needs_resources,
            needs.wf(),
            tokens.wf(),
            i <= needs.spec_keys().len(),
            forall|j: int|
                0 <= j < i && (#[trigger] needs.spec_keys()[j]) is UserToken
                    ==> tokens@.dom().contains(needs.spec_keys()[j]),
        decreases needs.spec_keys().len() - i,
    {
        let key = needs.key_at(i);
        match key {
            ResourceKey::UserToken(name) => {
                if !tokens.contains_key(key) {
                    proof {
                        needs.lemma_entry(i as int);
                    }
                    return Some(name.clone());
                }
            },
            ResourceKey::Worktree => {},
        }
        i += 1;
    }
    proof {
        assert forall|name: Seq<char>| #[trigger]
            needs@.dom().contains(KeyView::UserToken(name)) implies tokens@.dom().contains(
            KeyView::UserToken(name),
        ) by {
            let k = KeyView::UserToken(name);
            let j = needs.spec_keys().index_of(k);
            assert(needs.spec_keys()[j] == k);
        }
    }
    None
}

impl Config {
    /// Resolves the tests: builds their DAG, resolves each test after the
    /// tests it depends on, and checks that every resource that a test
    /// demands is declared in `resource_tokens`. Where the tests do not
    /// form a DAG, that error is returned whatever their commands are.
    pub fn parse_tests(self, resource_tokens: &ResourceMap<Vec<String>>) -> (r: Result<
        TestDag,
        ConfigError,
    >)
        requires
            valid_nodes(self.tests@) ==> all_runnable(self.tests@),
            resource_tokens.wf(),
        ensures
            tests_resolved(self.tests@, resource_tokens@.dom(), r),
    {
        let ghost decls = self.tests@;
        let decl_dag: Dag<String, Test> = match Dag::new(self.tests) {
            Ok(d) => d,
            Err(e) => {
                return Err(ConfigError::Dag(e));
            },
        };
        let tests = match resolve_all(&decl_dag) {
            Ok(t) => t,
            Err(e) => {
                return Err(e);
            },
        };
        let ghost order = decl_dag.bottom_up_order();
        proof {
            decl_dag.lemma_bottom_up();
        }
        let specs = tests.nodes();
        let mut p: usize = 0;
        while p < specs.len()
            invariant
                decls == decl_dag@,
                decls == self.tests@,
                order == decl_dag.bottom_up_order(),
                specs@ == tests@,
                valid_nodes(decls),
                all_names_distinct(decls),
                resolved_upto(decls, order, tests@, decls.len() as int),
                order.len() == decls.len(),
                forall|q: int| 0 <= q < order.len() ==> (#[trigger] order[q]) < decls.len(),
                resource_tokens.wf(),
                p <= specs.len(),
                forall|q: int, name: Seq<char>|
                    0 <= q < p && #[trigger] demanded(demands(decls[order[q] as int]), name)
                        ==> resource_tokens@.dom().contains(KeyView::UserToken(name)),
            decreases specs.len() - p,
        {
            let spec = &specs[p];
            proof {
                assert(resolves_to(decls[order[p as int] as int], tests@.take(p as int), tests@[p as int]));
            }
            match undeclared_in(spec, resource_tokens) {
                Some(resource) => {
                    proof {
                        let i = order[p as int] as int;
                        assert(decls[i].name@ == spec.name@);
                        assert(needs_of(decls[i]).dom().contains(KeyView::UserToken(resource@)));
                        assert(demanded(demands(decls[i]), resource@));
                    }
                    return Err(
                        ConfigError::UndefinedResource {
                            resource,
                            test: String::from_str(spec.name.as_str()),
                        },
                    );
                },
                None => {
                    proof {
                        assert forall|name: Seq<char>| #[trigger]
                            demanded(
                                demands(decls[order[p as int] as int]),
                                name,
                            ) implies resource_tokens@.dom().contains(KeyView::UserToken(name)) by {
                            assert(needs_of(decls[order[p as int] as int]).dom().contains(
                                KeyView::UserToken(name),
                            ));
                            assert(spec.needs_resources@.dom().contains(KeyView::UserToken(name)));
                        }
                    }
                },
            }
            p += 1;
        }
        proof {
            assert forall|i: int, name: Seq<char>|
                0 <= i < decls.len() && #[trigger] demanded(
                    demands(decls[i]),
                    name,
                ) implies resource_tokens@.dom().contains(KeyView::UserToken(name)) by {
                assert(order.contains(i as usize));
                let q = choose|q: int| 0 <= q < order.len() && order[q] == i as usize;
                assert(demanded(demands(decls[order[q] as int]), name));
            }
            assert(resolved_upto(decls, decl_dag.bottom_up_order(), tests@, decls.len() as int));
        }
        Ok(tests)
    }
}


/// What is needed to run jobs: the number of checkouts to create, the
/// pools of declared resources, and the tests.
pub struct ParsedConfig {
    pub num_worktrees: usize,
    pub resource_pools: Pools,
    pub tests: TestDag,
}

/// The stock holds exactly the tokens `tokens`, under the same keys and
/// in the same order.
pub open spec fn holds_tokens(stock: Stock, tokens: Map<KeyView, Seq<Seq<char>>>) -> bool {
    &&& stock.dom() == tokens.dom()
    &&& forall|k: KeyView|
        stock.dom().contains(k) ==> token_texts(#[trigger] stock[k]) == tokens[k] && forall|
            i: int,
        |
            0 <= i < stock[k].len() ==> (#[trigger] stock[k][i]) is UserToken
}

/// The strings of `tokens` as resources, in the same order.
fn as_resources(tokens: Vec<String>) -> (r: Vec<crate::resource::Resource>)
    ensures
        token_texts(r@) == texts(tokens@),
        forall|i: int| 0 <= i < r@.len() ==> (#[trigger] r@[i]) is UserToken,
{
    let ghost all = tokens@;
    let n = tokens.len();
    let mut stack = reversed(tokens);
    let mut r: Vec<crate::resource::Resource> = Vec::new();
    while r.len() < n
        invariant
            n == all.len(),
            r@.len() <= n,
            stack@.len() == n - r@.len(),
            forall|j: int| 0 <= j < stack@.len() ==> stack@[j] == all[n - 1 - j],
            forall|j: int|
                0 <= j < r@.len() ==> (#[trigger] r@[j]) is UserToken && r@[j]->UserToken_0
                    == all[j],
        decreases n - r@.len(),
    {
        match stack.pop() {
            Some(t) => {
                r.push(crate::resource::Resource::UserToken(t));
            },
            None => {
                proof {
                    assert(false);
                }
            },
        }
    }
    proof {
        assert(token_texts(r@) =~= texts(all));
    }
    r
}

/// The stock of the declared resources, each token as a resource.
fn prime(tokens: ResourceMap<Vec<String>>) -> (m: ResourceMap<Vec<crate::resource::Resource>>)
    requires
        tokens.wf(),
        forall|k: KeyView| tokens@.dom().contains(k) ==> k is UserToken,
    ensures
        m.wf(),
        well_kinded(stock_of(m@)),
        holds_tokens(stock_of(m@), token_map(tokens@)),
{
    let ghost want = token_map(tokens@);
    let ghost names = tokens.spec_keys();
    let ghost rows = tokens.spec_vals();
    let mut left = tokens;
    let mut m: ResourceMap<Vec<crate::resource::Resource>> = ResourceMap::new();
    let mut n: usize = left.len();
    proof {
        assert(names.take(n as int) =~= names);
        assert(rows.take(n as int) =~= rows);
        assert forall|j: int| 0 <= j < names.len() implies want.dom().contains(
            #[trigger] names[j],
        ) && want[names[j]] == texts(rows[j]@) by {
            tokens.lemma_entry(j);
        }
    }
    while n > 0
        invariant
            left.wf(),
            m.wf(),
            names.no_duplicates(),
            names.len() == rows.len(),
            n <= names.len(),
            left.spec_keys() == names.take(n as int),
            left.spec_vals() == rows.take(n as int),
            forall|j: int|
                0 <= j < names.len() ==> want.dom().contains(#[trigger] names[j])
                    && want[names[j]] == texts(rows[j]@),
            forall|k: KeyView| m@.dom().contains(k) <==> names.skip(n as int).contains(k),
            forall|k: KeyView|
                m@.dom().contains(k) ==> token_texts((#[trigger] m@[k])@) == want[k] && forall|
                    i: int,
                |
                    0 <= i < m@[k]@.len() ==> (#[trigger] m@[k]@[i]) is UserToken,
        decreases n,
    {
        match left.pop() {
            Some((key, strings)) => {
                let ghost k = names[n - 1];
                proof {
                    assert(key@ == k);
                    assert(strings == rows[n - 1]);
                    assert(names.take(n as int).drop_last() =~= names.take(n - 1));
                    assert(rows.take(n as int).drop_last() =~= rows.take(n - 1));
                }
                let row = as_resources(strings);
                let _ = m.insert(key, row);
                proof {
                    let done = names.skip(n - 1);
                    assert(done[0] == k);
                    assert forall|x: KeyView| m@.dom().contains(x) <==> done.contains(x) by {
                        if names.skip(n as int).contains(x) {
                            let j = choose|j: int|
                                0 <= j < names.skip(n as int).len() && names.skip(n as int)[j]
                                    == x;
                            assert(done[j + 1] == x);
                        }
                        if done.contains(x) && x != k {
                            let j = choose|j: int| 0 <= j < done.len() && done[j] == x;
                            assert(names.skip(n as int)[j - 1] == x);
                        }
                    }
                }
            },
            None => {
                proof {
                    assert(false);
                }
            },
        }
        n -= 1;
    }
    proof {
        assert(names.skip(0) =~= names);
        assert(stock_of(m@).dom() =~= want.dom()) by {
            assert forall|x: KeyView| m@.dom().contains(x) <==> want.dom().contains(x) by {
                if want.dom().contains(x) {
                    assert(tokens@.dom().contains(x));
                }
                if names.contains(x) {
                    let j = choose|j: int| 0 <= j < names.len() && names[j] == x;
                    assert(want.dom().contains(names[j]));
                }
            }
        }
        assert forall|x: KeyView, q: int|
            stock_of(m@).dom().contains(x) && 0 <= q < stock_of(m@)[x].len() implies (
        #[trigger] stock_of(m@)[x][q]).fits(x) by {
            assert(m@[x]@[q] is UserToken);
            assert(names.contains(x));
            assert(tokens@.dom().contains(x));
        }
    }
    m
}


impl Config {
    /// Whether every test has a command that names a program.
    pub fn commands_runnable(&self) -> (b: bool)
        ensures
            b == all_runnable(self.tests@),
    {
        let mut i: usize = 0;
        while i < self.tests.len()
            invariant
                i <= self.tests.len(),
                forall|j: int| 0 <= j < i ==> (#[trigger] self.tests@[j]).command.runnable(),
            decreases self.tests.len() - i,
        {
            if !self.tests[i].command.is_runnable() {
                return false;
            }
            i += 1;
        }
        true
    }
}

impl Test {
    /// Whether the declaration can be resolved against `others`.
    pub fn can_resolve(&self, others: &TestDag) -> (b: bool)
        requires
            others.wf(),
        ensures
            b == self.resolvable(others@),
    {
        if !self.command.is_runnable() {
            return false;
        }
        let mut k: usize = 0;
        while k < self.depends_on.len()
            invariant
                others.wf(),
                k <= self.depends_on.len(),
                forall|j: int|
                    0 <= j < k ==> knows(others@, (#[trigger] self.depends_on@[j])@),
            decreases self.depends_on.len() - k,
        {
            let dep = TestName::new(self.depends_on[k].clone());
            if others.node(&dep).is_none() {
                return false;
            }
            k += 1;
        }
        true
    }
}

impl ParsedConfig {
    /// Resolves a configuration: primes the pools with the declared
    /// resources and resolves the tests. The checkouts are not created
    /// here; `num_worktrees` says how many are wanted.
    pub fn from(config: Config) -> (r: Result<ParsedConfig, ConfigError>)
        requires
            valid_nodes(config.tests@) ==> all_runnable(config.tests@),
        ensures
            match r {
                Ok(parsed) => {
                    &&& parsed.num_worktrees == config.num_worktrees
                    &&& parsed.resource_pools.wf()
                    &&& holds_tokens(parsed.resource_pools@, declared(declarations(config)))
                    &&& tests_resolved(
                        config.tests@,
                        declared(declarations(config)).dom(),
                        Ok(parsed.tests),
                    )
                },
                Err(e) => tests_resolved(
                    config.tests@,
                    declared(declarations(config)).dom(),
                    Err(e),
                ),
            },
    {
        let resource_tokens = config.parse_resource_tokens();
        let num_worktrees = config.num_worktrees;
        proof {
            lemma_declared_keys(declarations(config));
            assert(token_map(resource_tokens@).dom() =~= resource_tokens@.dom());
        }
        let tests = match config.parse_tests(&resource_tokens) {
            Ok(t) => t,
            Err(e) => {
                return Err(e);
            },
        };
        let resource_pools = Pools::new(prime(resource_tokens));
        Ok(ParsedConfig { num_worktrees, resource_pools, tests })
    }
}

} // verus!
