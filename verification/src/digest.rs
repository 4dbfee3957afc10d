//! Laws of the encoding that is hashed for a test. The encoding can be read
//! back: two declarations have the same encoding only if they say the same,
//! and nothing that follows an encoding can be taken for a part of it. So
//! the hash of a test changes with its declaration and with the hashes of
//! its dependencies, unless the hasher itself collides.
use crate::config::{
    bool_tag, cache_tag, command_chunks, config_hash_of, decl_chunks, dep_chunks, dep_hashes,
    len_chunk, list_chunks, opt_resources_chunks, resolves_to, resource_chunks,
    resources_chunks, str_chunks, strs_chunks, Command, Resource, Test,
};
use crate::text::texts;
use std::collections::hash_map::DefaultHasher;
use vstd::bytes::{
    lemma_auto_spec_u64_to_from_le_bytes, spec_u64_from_le_bytes, spec_u64_to_le_bytes,
};
use vstd::prelude::*;
use vstd::std_specs::hash::DefaultHasherAdditionalSpecFns;
use vstd::utf8::{encode_utf8, encode_utf8_decode_utf8};

verus! {

/// The two commands say the same.
pub open spec fn same_command(c: Command, d: Command) -> bool {
    match (c, d) {
        (Command::Shell(a), Command::Shell(b)) => a@ == b@,
        (Command::Raw(a), Command::Raw(b)) => texts(a@) == texts(b@),
        _ => false,
    }
}

/// The two demands say the same: they are of one form, for one name, with
/// one count or the same tokens.
pub open spec fn same_resource(r: Resource, q: Resource) -> bool {
    match (r, q) {
        (Resource::Bare(a), Resource::Bare(b)) => a@ == b@,
        (Resource::Counted { name: a, count: m }, Resource::Counted { name: b, count: n }) => a@
            == b@ && m == n,
        (
            Resource::Explicit { name: a, tokens: x },
            Resource::Explicit { name: b, tokens: y },
        ) => a@ == b@ && texts(x@) == texts(y@),
        _ => false,
    }
}

/// The two lists hold the same demands in the same order.
pub open spec fn same_resources(v: Seq<Resource>, w: Seq<Resource>) -> bool {
    &&& v.len() == w.len()
    &&& forall|i: int| 0 <= i < v.len() ==> #[trigger] same_resource(v[i], w[i])
}

/// Both tests demand nothing, or both demand the same.
pub open spec fn same_demands(o: Option<Vec<Resource>>, p: Option<Vec<Resource>>) -> bool {
    match (o, p) {
        (None, None) => true,
        (Some(v), Some(w)) => same_resources(v@, w@),
        _ => false,
    }
}

/// The two declarations say the same, field by field.
pub open spec fn same_declaration(a: Test, b: Test) -> bool {
    &&& a.name@ == b.name@
    &&& same_command(a.command, b.command)
    &&& a.requires_worktree == b.requires_worktree
    &&& same_demands(a.resources, b.resources)
    &&& a.shutdown_grace_period_s == b.shutdown_grace_period_s
    &&& a.cache == b.cache
    &&& texts(a.depends_on@) == texts(b.depends_on@)
}

proof fn lemma_number_read_back(x: u64, y: u64)
    requires
        spec_u64_to_le_bytes(x) == spec_u64_to_le_bytes(y),
    ensures
        x == y,
{
    lemma_auto_spec_u64_to_from_le_bytes();
    assert(spec_u64_from_le_bytes(spec_u64_to_le_bytes(x)) == x);
    assert(spec_u64_from_le_bytes(spec_u64_to_le_bytes(y)) == y);
}

proof fn lemma_len_read_back(m: nat, n: nat)
    requires
        m <= u64::MAX,
        n <= u64::MAX,
        len_chunk(m) == len_chunk(n),
    ensures
        m == n,
{
    lemma_number_read_back(m as u64, n as u64);
}

proof fn lemma_text_read_back(a: Seq<char>, b: Seq<char>)
    requires
        encode_utf8(a) == encode_utf8(b),
    ensures
        a == b,
{
    encode_utf8_decode_utf8(a);
    encode_utf8_decode_utf8(b);
}

proof fn lemma_chunk_cancel(x: Seq<u8>, y: Seq<u8>, s: Seq<Seq<u8>>, t: Seq<Seq<u8>>)
    requires
        seq![x] + s == seq![y] + t,
    ensures
        x == y,
        s == t,
{
    let l = seq![x] + s;
    let r = seq![y] + t;
    assert(l[0] == x);
    assert(r[0] == y);
    assert(s =~= l.skip(1));
    assert(t =~= r.skip(1));
}

proof fn lemma_tag_cancel(x: u8, y: u8, s: Seq<Seq<u8>>, t: Seq<Seq<u8>>)
    requires
        seq![seq![x]] + s == seq![seq![y]] + t,
    ensures
        x == y,
        s == t,
{
    lemma_chunk_cancel(seq![x], seq![y], s, t);
    assert(seq![x][0] == x);
    assert(seq![y][0] == y);
}

proof fn lemma_str_cancel(a: Seq<char>, b: Seq<char>, s: Seq<Seq<u8>>, t: Seq<Seq<u8>>)
    requires
        str_chunks(a) + s == str_chunks(b) + t,
    ensures
        a == b,
        s == t,
{
    let l = str_chunks(a) + s;
    let r = str_chunks(b) + t;
    assert(l[1] == encode_utf8(a));
    assert(r[1] == encode_utf8(b));
    lemma_text_read_back(a, b);
    assert(s =~= l.skip(2));
    assert(t =~= r.skip(2));
}

proof fn lemma_strs_layout(v: Seq<Seq<char>>)
    ensures
        strs_chunks(v).len() == 2 * v.len(),
        forall|i: int|
            0 <= i < v.len() ==> strs_chunks(v)[2 * i + 1] == encode_utf8(#[trigger] v[i]),
    decreases v.len(),
{
    if v.len() > 0 {
        lemma_strs_layout(v.drop_last());
        assert forall|i: int| 0 <= i < v.len() implies strs_chunks(v)[2 * i + 1] == encode_utf8(
            #[trigger] v[i],
        ) by {
            if i < v.len() - 1 {
                assert(v.drop_last()[i] == v[i]);
            }
        }
    }
}

proof fn lemma_strs_cancel(
    v: Seq<Seq<char>>,
    w: Seq<Seq<char>>,
    s: Seq<Seq<u8>>,
    t: Seq<Seq<u8>>,
)
    requires
        v.len() == w.len(),
        strs_chunks(v) + s == strs_chunks(w) + t,
    ensures
        v == w,
        s == t,
{
    lemma_strs_layout(v);
    lemma_strs_layout(w);
    let l = strs_chunks(v) + s;
    let r = strs_chunks(w) + t;
    let n = (2 * v.len()) as int;
    assert(s =~= l.skip(n));
    assert(t =~= r.skip(n));
    assert forall|i: int| 0 <= i < v.len() implies v[i] == w[i] by {
        assert(l[2 * i + 1] == strs_chunks(v)[2 * i + 1]);
        assert(r[2 * i + 1] == strs_chunks(w)[2 * i + 1]);
        lemma_text_read_back(v[i], w[i]);
    }
    assert(v =~= w);
}

proof fn lemma_list_cancel(
    v: Seq<Seq<char>>,
    w: Seq<Seq<char>>,
    s: Seq<Seq<u8>>,
    t: Seq<Seq<u8>>,
)
    requires
        v.len() <= u64::MAX,
        w.len() <= u64::MAX,
        list_chunks(v) + s == list_chunks(w) + t,
    ensures
        v == w,
        s == t,
{
    assert(list_chunks(v) + s =~= seq![len_chunk(v.len())] + (strs_chunks(v) + s));
    assert(list_chunks(w) + t =~= seq![len_chunk(w.len())] + (strs_chunks(w) + t));
    lemma_chunk_cancel(
        len_chunk(v.len()),
        len_chunk(w.len()),
        strs_chunks(v) + s,
        strs_chunks(w) + t,
    );
    lemma_len_read_back(v.len(), w.len());
    lemma_strs_cancel(v, w, s, t);
}

/// The byte that tells the forms of a command apart.
spec fn command_tag(c: Command) -> u8 {
    match c {
        Command::Shell(_) => 0,
        Command::Raw(_) => 1,
    }
}

/// What follows that byte.
spec fn command_rest(c: Command) -> Seq<Seq<u8>> {
    match c {
        Command::Shell(line) => str_chunks(line@),
        Command::Raw(args) => list_chunks(texts(args@)),
    }
}

proof fn lemma_command_cancel(c: Command, d: Command, s: Seq<Seq<u8>>, t: Seq<Seq<u8>>)
    requires
        command_chunks(c) + s == command_chunks(d) + t,
    ensures
        same_command(c, d),
        s == t,
{
    assert(command_chunks(c) + s =~= seq![seq![command_tag(c)]] + (command_rest(c) + s));
    assert(command_chunks(d) + t =~= seq![seq![command_tag(d)]] + (command_rest(d) + t));
    lemma_tag_cancel(command_tag(c), command_tag(d), command_rest(c) + s, command_rest(d) + t);
    match (c, d) {
        (Command::Shell(a), Command::Shell(b)) => {
            lemma_str_cancel(a@, b@, s, t);
        },
        (Command::Raw(a), Command::Raw(b)) => {
            assert(texts(a@).len() == a.len());
            assert(texts(b@).len() == b.len());
            lemma_list_cancel(texts(a@), texts(b@), s, t);
        },
        _ => {},
    }
}

/// The byte that tells the forms of a demand apart.
spec fn resource_tag(r: Resource) -> u8 {
    match r {
        Resource::Bare(_) => 0,
        Resource::Counted { name, count } => 1,
        Resource::Explicit { name, tokens } => 2,
    }
}

/// What follows the name of a demand.
spec fn resource_rest(r: Resource) -> Seq<Seq<u8>> {
    match r {
        Resource::Bare(_) => Seq::empty(),
        Resource::Counted { name, count } => seq![len_chunk(count as nat)],
        Resource::Explicit { name, tokens } => list_chunks(texts(tokens@)),
    }
}

proof fn lemma_resource_cancel(r: Resource, q: Resource, s: Seq<Seq<u8>>, t: Seq<Seq<u8>>)
    requires
        resource_chunks(r) + s == resource_chunks(q) + t,
    ensures
        same_resource(r, q),
        s == t,
{
    let rs = resource_rest(r) + s;
    let qt = resource_rest(q) + t;
    assert(resource_chunks(r) + s =~= seq![seq![resource_tag(r)]] + (str_chunks(r.spec_name())
        + rs));
    assert(resource_chunks(q) + t =~= seq![seq![resource_tag(q)]] + (str_chunks(q.spec_name())
        + qt));
    lemma_tag_cancel(
        resource_tag(r),
        resource_tag(q),
        str_chunks(r.spec_name()) + rs,
        str_chunks(q.spec_name()) + qt,
    );
    lemma_str_cancel(r.spec_name(), q.spec_name(), rs, qt);
    match (r, q) {
        (Resource::Bare(a), Resource::Bare(b)) => {
            assert(s =~= rs);
            assert(t =~= qt);
        },
        (Resource::Counted { name: a, count: m }, Resource::Counted { name: b, count: n }) => {
            lemma_chunk_cancel(len_chunk(m as nat), len_chunk(n as nat), s, t);
            lemma_len_read_back(m as nat, n as nat);
        },
        (
            Resource::Explicit { name: a, tokens: x },
            Resource::Explicit { name: b, tokens: y },
        ) => {
            assert(texts(x@).len() == x.len());
            assert(texts(y@).len() == y.len());
            lemma_list_cancel(texts(x@), texts(y@), s, t);
        },
        _ => {},
    }
}

proof fn lemma_resources_front(v: Seq<Resource>)
    requires
        v.len() > 0,
    ensures
        resources_chunks(v) == resource_chunks(v[0]) + resources_chunks(v.drop_first()),
    decreases v.len(),
{
    if v.len() == 1 {
        assert(v.drop_last() =~= Seq::<Resource>::empty());
        assert(v.drop_first() =~= Seq::<Resource>::empty());
        assert(resources_chunks(v) =~= resource_chunks(v[0]) + resources_chunks(v.drop_first()));
    } else {
        let front = v.drop_last();
        let rest = v.drop_first();
        lemma_resources_front(front);
        assert(front.drop_first() =~= rest.drop_last());
        assert(rest.last() == v.last());
        assert(front[0] == v[0]);
        assert(resources_chunks(v) =~= resource_chunks(v[0]) + resources_chunks(rest));
    }
}

proof fn lemma_resources_cancel(
    v: Seq<Resource>,
    w: Seq<Resource>,
    s: Seq<Seq<u8>>,
    t: Seq<Seq<u8>>,
)
    requires
        v.len() == w.len(),
        resources_chunks(v) + s == resources_chunks(w) + t,
    ensures
        same_resources(v, w),
        s == t,
    decreases v.len(),
{
    if v.len() == 0 {
        assert(s =~= resources_chunks(v) + s);
        assert(t =~= resources_chunks(w) + t);
    } else {
        lemma_resources_front(v);
        lemma_resources_front(w);
        let vs = resources_chunks(v.drop_first()) + s;
        let wt = resources_chunks(w.drop_first()) + t;
        assert(resources_chunks(v) + s =~= resource_chunks(v[0]) + vs);
        assert(resources_chunks(w) + t =~= resource_chunks(w[0]) + wt);
        lemma_resource_cancel(v[0], w[0], vs, wt);
        lemma_resources_cancel(v.drop_first(), w.drop_first(), s, t);
        assert forall|i: int| 0 <= i < v.len() implies #[trigger] same_resource(v[i], w[i]) by {
            if i > 0 {
                assert(same_resource(v.drop_first()[i - 1], w.drop_first()[i - 1]));
            }
        }
    }
}

/// The byte that tells a test with demands from one without.
spec fn demands_tag(o: Option<Vec<Resource>>) -> u8 {
    match o {
        None => 0,
        Some(_) => 1,
    }
}

/// What follows that byte.
spec fn demands_rest(o: Option<Vec<Resource>>) -> Seq<Seq<u8>> {
    match o {
        None => Seq::empty(),
        Some(v) => seq![len_chunk(v@.len())] + resources_chunks(v@),
    }
}

proof fn lemma_demands_cancel(
    o: Option<Vec<Resource>>,
    p: Option<Vec<Resource>>,
    s: Seq<Seq<u8>>,
    t: Seq<Seq<u8>>,
)
    requires
        opt_resources_chunks(o) + s == opt_resources_chunks(p) + t,
    ensures
        same_demands(o, p),
        s == t,
{
    assert(opt_resources_chunks(o) + s =~= seq![seq![demands_tag(o)]] + (demands_rest(o) + s));
    assert(opt_resources_chunks(p) + t =~= seq![seq![demands_tag(p)]] + (demands_rest(p) + t));
    lemma_tag_cancel(demands_tag(o), demands_tag(p), demands_rest(o) + s, demands_rest(p) + t);
    match (o, p) {
        (None, None) => {
            assert(s =~= demands_rest(o) + s);
            assert(t =~= demands_rest(p) + t);
        },
        (Some(v), Some(w)) => {
            let vs = resources_chunks(v@) + s;
            let wt = resources_chunks(w@) + t;
            assert(demands_rest(o) + s =~= seq![len_chunk(v@.len())] + vs);
            assert(demands_rest(p) + t =~= seq![len_chunk(w@.len())] + wt);
            lemma_chunk_cancel(len_chunk(v@.len()), len_chunk(w@.len()), vs, wt);
            assert(v@.len() == v.len());
            assert(w@.len() == w.len());
            lemma_len_read_back(v@.len(), w@.len());
            lemma_resources_cancel(v@, w@, s, t);
        },
        _ => {},
    }
}

proof fn lemma_regroup(x: Seq<Seq<u8>>, y: Seq<Seq<u8>>, z: Seq<Seq<u8>>)
    ensures
        (x + y) + z == x + (y + z),
{
    assert((x + y) + z =~= x + (y + z));
}

/// What follows the name in the encoding of `a`, where `s` follows the
/// encoding.
spec fn after_name(a: Test, s: Seq<Seq<u8>>) -> Seq<Seq<u8>> {
    command_chunks(a.command) + after_command(a, s)
}

/// What follows the command.
spec fn after_command(a: Test, s: Seq<Seq<u8>>) -> Seq<Seq<u8>> {
    seq![seq![bool_tag(a.requires_worktree)]] + after_worktree(a, s)
}

/// What follows the byte for the checkout.
spec fn after_worktree(a: Test, s: Seq<Seq<u8>>) -> Seq<Seq<u8>> {
    opt_resources_chunks(a.resources) + after_demands(a, s)
}

/// What follows the demands.
spec fn after_demands(a: Test, s: Seq<Seq<u8>>) -> Seq<Seq<u8>> {
    seq![spec_u64_to_le_bytes(a.shutdown_grace_period_s)] + after_grace(a, s)
}

/// What follows the grace period.
spec fn after_grace(a: Test, s: Seq<Seq<u8>>) -> Seq<Seq<u8>> {
    seq![seq![cache_tag(a.cache)]] + (list_chunks(texts(a.depends_on@)) + s)
}

proof fn lemma_declaration_layout(a: Test, s: Seq<Seq<u8>>)
    ensures
        decl_chunks(a) + s == str_chunks(a.name@) + after_name(a, s),
{
    let n = str_chunks(a.name@);
    let c = command_chunks(a.command);
    let w = seq![seq![bool_tag(a.requires_worktree)]];
    let o = opt_resources_chunks(a.resources);
    let g = seq![spec_u64_to_le_bytes(a.shutdown_grace_period_s)];
    let k = seq![seq![cache_tag(a.cache)]];
    let l = list_chunks(texts(a.depends_on@));
    assert(decl_chunks(a) == n + c + w + o + g + k + l);
    lemma_regroup(n + c + w + o + g + k, l, s);
    lemma_regroup(n + c + w + o + g, k, l + s);
    lemma_regroup(n + c + w + o, g, k + (l + s));
    lemma_regroup(n + c + w, o, g + (k + (l + s)));
    lemma_regroup(n + c, w, o + (g + (k + (l + s))));
    lemma_regroup(n, c, w + (o + (g + (k + (l + s)))));
}

/// The encoding of a declaration can be read back from the front of
/// whatever it stands in: where two encodings, each followed by something,
/// give the same chunks, the declarations say the same, and what follows
/// them is the same.
pub proof fn lemma_declaration_read_back(a: Test, b: Test, s: Seq<Seq<u8>>, t: Seq<Seq<u8>>)
    requires
        decl_chunks(a) + s == decl_chunks(b) + t,
    ensures
        same_declaration(a, b),
        s == t,
{
    lemma_declaration_layout(a, s);
    lemma_declaration_layout(b, t);
    lemma_str_cancel(a.name@, b.name@, after_name(a, s), after_name(b, t));
    lemma_command_cancel(a.command, b.command, after_command(a, s), after_command(b, t));
    lemma_tag_cancel(
        bool_tag(a.requires_worktree),
        bool_tag(b.requires_worktree),
        after_worktree(a, s),
        after_worktree(b, t),
    );
    lemma_demands_cancel(a.resources, b.resources, after_demands(a, s), after_demands(b, t));
    lemma_chunk_cancel(
        spec_u64_to_le_bytes(a.shutdown_grace_period_s),
        spec_u64_to_le_bytes(b.shutdown_grace_period_s),
        after_grace(a, s),
        after_grace(b, t),
    );
    lemma_number_read_back(a.shutdown_grace_period_s, b.shutdown_grace_period_s);
    lemma_tag_cancel(
        cache_tag(a.cache),
        cache_tag(b.cache),
        list_chunks(texts(a.depends_on@)) + s,
        list_chunks(texts(b.depends_on@)) + t,
    );
    assert(texts(a.depends_on@).len() == a.depends_on.len());
    assert(texts(b.depends_on@).len() == b.depends_on.len());
    lemma_list_cancel(texts(a.depends_on@), texts(b.depends_on@), s, t);
}

proof fn lemma_same_resources_chunks(v: Seq<Resource>, w: Seq<Resource>)
    requires
        same_resources(v, w),
    ensures
        resources_chunks(v) == resources_chunks(w),
    decreases v.len(),
{
    if v.len() > 0 {
        assert forall|i: int| 0 <= i < v.len() - 1 implies #[trigger] same_resource(
            v.drop_last()[i],
            w.drop_last()[i],
        ) by {
            assert(same_resource(v[i], w[i]));
        }
        lemma_same_resources_chunks(v.drop_last(), w.drop_last());
        assert(same_resource(v[v.len() - 1], w[v.len() - 1]));
    }
}

/// Declarations that say the same have the same encoding.
pub proof fn lemma_same_declaration_encodes_alike(a: Test, b: Test)
    requires
        same_declaration(a, b),
    ensures
        decl_chunks(a) == decl_chunks(b),
{
    match (a.resources, b.resources) {
        (Some(v), Some(w)) => {
            lemma_same_resources_chunks(v@, w@);
        },
        _ => {},
    }
}

/// The hasher tells the inputs `a` and `b` apart.
pub open spec fn no_collision(a: Seq<Seq<u8>>, b: Seq<Seq<u8>>) -> bool {
    DefaultHasher::spec_finish(a) == DefaultHasher::spec_finish(b) ==> a == b
}

/// The hash of a test is a function of what its declaration says and of the
/// hashes of its dependencies: tests that agree in both have the same
/// hash.
pub proof fn lemma_hash_agrees(a: Test, deps_a: Seq<u64>, b: Test, deps_b: Seq<u64>)
    requires
        same_declaration(a, b),
        deps_a == deps_b,
    ensures
        config_hash_of(decl_chunks(a), deps_a) == config_hash_of(decl_chunks(b), deps_b),
{
    lemma_same_declaration_encodes_alike(a, b);
}

/// The hash of a test depends on every field of its declaration and on the
/// hash of each dependency: tests whose declarations differ in anything
/// they say, or whose dependencies differ in a hash, have different
/// hashes, unless the hasher collides on what it is fed for them.
pub proof fn lemma_hash_tells_apart(a: Test, deps_a: Seq<u64>, b: Test, deps_b: Seq<u64>)
    requires
        !same_declaration(a, b) || deps_a != deps_b,
        no_collision(decl_chunks(a) + dep_chunks(deps_a), decl_chunks(b) + dep_chunks(deps_b)),
    ensures
        config_hash_of(decl_chunks(a), deps_a) != config_hash_of(decl_chunks(b), deps_b),
{
    if config_hash_of(decl_chunks(a), deps_a) == config_hash_of(decl_chunks(b), deps_b) {
        lemma_declaration_read_back(a, b, dep_chunks(deps_a), dep_chunks(deps_b));
        assert(deps_a.len() == deps_b.len());
        assert forall|i: int| 0 <= i < deps_a.len() implies deps_a[i] == deps_b[i] by {
            assert(dep_chunks(deps_a)[i] == spec_u64_to_le_bytes(deps_a[i]));
            assert(dep_chunks(deps_b)[i] == spec_u64_to_le_bytes(deps_b[i]));
            lemma_number_read_back(deps_a[i], deps_b[i]);
        }
        assert(deps_a =~= deps_b);
    }
}

/// A change in a dependency reaches the tests that depend on it: where the
/// declarations of a dependency differ in anything they say, a test that
/// names it at the same place gets a different hash too, though its own
/// declaration is unchanged, unless the hasher collides on what it is fed
/// for the dependency or for the test.
pub proof fn lemma_hash_follows_dependency(
    dep_a: Test,
    dep_b: Test,
    below: Seq<u64>,
    t: Test,
    before: Seq<u64>,
    after: Seq<u64>,
)
    requires
        !same_declaration(dep_a, dep_b),
        no_collision(decl_chunks(dep_a) + dep_chunks(below), decl_chunks(dep_b) + dep_chunks(below)),
        no_collision(
            decl_chunks(t) + dep_chunks(
                before.push(config_hash_of(decl_chunks(dep_a), below)) + after,
            ),
            decl_chunks(t) + dep_chunks(
                before.push(config_hash_of(decl_chunks(dep_b), below)) + after,
            ),
        ),
    ensures
        config_hash_of(decl_chunks(dep_a), below) != config_hash_of(decl_chunks(dep_b), below),
        config_hash_of(
            decl_chunks(t),
            before.push(config_hash_of(decl_chunks(dep_a), below)) + after,
        ) != config_hash_of(
            decl_chunks(t),
            before.push(config_hash_of(decl_chunks(dep_b), below)) + after,
        ),
{
    lemma_hash_tells_apart(dep_a, below, dep_b, below);
    let ha = config_hash_of(decl_chunks(dep_a), below);
    let hb = config_hash_of(decl_chunks(dep_b), below);
    let da = before.push(ha) + after;
    let db = before.push(hb) + after;
    assert(da[before.len() as int] == ha);
    assert(db[before.len() as int] == hb);
    lemma_hash_tells_apart(t, da, t, db);
}

/// A step of a chain of dependencies: a test, and the hashes of the
/// dependencies that it names before and after the one that the chain
/// comes from.
pub ghost struct Link {
    pub test: Test,
    pub before: Seq<u64>,
    pub after: Seq<u64>,
}

/// The hashes of the dependencies of the test of `link`, where `below` is
/// the hash of the one that the chain comes from.
pub open spec fn link_deps(link: Link, below: u64) -> Seq<u64> {
    link.before.push(below) + link.after
}

/// The hash at the upper end of a chain of dependencies whose lower end
/// has the hash `bottom`: each test of `links` depends on the one before
/// it, the first on the test with the hash `bottom`.
pub open spec fn chain_hash(bottom: u64, links: Seq<Link>) -> u64
    decreases links.len(),
{
    if links.len() == 0 {
        bottom
    } else {
        config_hash_of(
            decl_chunks(links.last().test),
            link_deps(links.last(), chain_hash(bottom, links.drop_last())),
        )
    }
}

/// What the hasher is fed for the test at the upper end of a chain.
pub open spec fn chain_input(bottom: u64, links: Seq<Link>) -> Seq<Seq<u8>> {
    decl_chunks(links.last().test) + dep_chunks(
        link_deps(links.last(), chain_hash(bottom, links.drop_last())),
    )
}

/// The hasher collides at no step of the chain `links` on what it is fed
/// above the hashes `a` and `b`.
pub open spec fn chain_clear(a: u64, b: u64, links: Seq<Link>) -> bool {
    forall|k: int|
        1 <= k <= links.len() ==> no_collision(
            #[trigger] chain_input(a, links.take(k)),
            chain_input(b, links.take(k)),
        )
}

/// A change deep below a test reaches its hash: along any chain of
/// dependencies, where the hashes at the lower end differ, the hashes at
/// the upper end differ, though every declaration on the chain and every
/// other dependency is unchanged, unless the hasher collides at a step of
/// the chain.
pub proof fn lemma_hash_follows_chain(a: u64, b: u64, links: Seq<Link>)
    requires
        a != b,
        chain_clear(a, b, links),
    ensures
        chain_hash(a, links) != chain_hash(b, links),
    decreases links.len(),
{
    if links.len() > 0 {
        let front = links.drop_last();
        let l = links.last();
        assert forall|k: int| 1 <= k <= front.len() implies no_collision(
            #[trigger] chain_input(a, front.take(k)),
            chain_input(b, front.take(k)),
        ) by {
            assert(front.take(k) =~= links.take(k));
            assert(no_collision(chain_input(a, links.take(k)), chain_input(b, links.take(k))));
        }
        lemma_hash_follows_chain(a, b, front);
        let da = link_deps(l, chain_hash(a, front));
        let db = link_deps(l, chain_hash(b, front));
        assert(da[l.before.len() as int] == chain_hash(a, front));
        assert(db[l.before.len() as int] == chain_hash(b, front));
        assert(links.take(links.len() as int) =~= links);
        assert(no_collision(
            chain_input(a, links.take(links.len() as int)),
            chain_input(b, links.take(links.len() as int)),
        ));
        lemma_hash_tells_apart(l.test, da, l.test, db);
    }
}

/// Resolving is deterministic in the hash: declarations that say the same,
/// resolved against the same tests, get the same hash.
pub proof fn lemma_resolved_alike(
    a: Test,
    b: Test,
    others: Seq<crate::test::Test>,
    spec_a: crate::test::Test,
    spec_b: crate::test::Test,
)
    requires
        same_declaration(a, b),
        resolves_to(a, others, spec_a),
        resolves_to(b, others, spec_b),
    ensures
        spec_a.config_hash == spec_b.config_hash,
{
    lemma_hash_agrees(
        a,
        dep_hashes(texts(a.depends_on@), others),
        b,
        dep_hashes(texts(b.depends_on@), others),
    );
}

/// Resolved tests are told apart by their hashes: where two declarations
/// differ in anything they say, or the tests they depend on differ in a
/// hash, the tests they resolve to have different hashes, unless the hasher
/// collides on what it is fed for them.
pub proof fn lemma_resolved_apart(
    a: Test,
    others_a: Seq<crate::test::Test>,
    spec_a: crate::test::Test,
    b: Test,
    others_b: Seq<crate::test::Test>,
    spec_b: crate::test::Test,
)
    requires
        resolves_to(a, others_a, spec_a),
        resolves_to(b, others_b, spec_b),
        !same_declaration(a, b) || dep_hashes(texts(a.depends_on@), others_a) != dep_hashes(
            texts(b.depends_on@),
            others_b,
        ),
        no_collision(
            decl_chunks(a) + dep_chunks(dep_hashes(texts(a.depends_on@), others_a)),
            decl_chunks(b) + dep_chunks(dep_hashes(texts(b.depends_on@), others_b)),
        ),
    ensures
        spec_a.config_hash != spec_b.config_hash,
{
    lemma_hash_tells_apart(
        a,
        dep_hashes(texts(a.depends_on@), others_a),
        b,
        dep_hashes(texts(b.depends_on@), others_b),
    );
}

} // verus!
