use local_ci::git::TempWorktree;
use local_ci::resource::{
    entries_fit_keys, env_vars, reversed, stock_fits, Pools, Resource, ResourceKey, ResourceMap, Resources,
};

fn user(name: &str) -> ResourceKey {
    ResourceKey::UserToken(name.to_string())
}

fn token(value: &str) -> Resource {
    Resource::UserToken(value.to_string())
}

fn pools_of(entries: Vec<(&str, Vec<&str>)>) -> Pools {
    let mut initial: ResourceMap<Vec<Resource>> = ResourceMap::new();
    for (name, tokens) in entries {
        let mut row = Vec::new();
        for t in tokens {
            row.push(token(t));
        }
        initial.insert(user(name), row);
    }
    assert!(stock_fits(&initial));
    Pools::new(initial)
}

fn wants_of(entries: Vec<(&str, usize)>) -> ResourceMap<usize> {
    let mut wants: ResourceMap<usize> = ResourceMap::new();
    for (name, n) in entries {
        wants.insert(user(name), n);
    }
    wants
}

fn held(lease: &Resources, name: &str) -> Vec<String> {
    let mut out = Vec::new();
    for r in lease.resources(&user(name)).unwrap() {
        match r {
            Resource::UserToken(t) => out.push(t.clone()),
            Resource::Worktree(_) => panic!("a checkout among tokens"),
        }
    }
    out
}

#[test]
fn test_pools_one_empty_blocks() {
    let mut pools = pools_of(vec![("foo", vec![]), ("bar", vec![])]);
    let wants = wants_of(vec![("foo", 1), ("bar", 0)]);
    assert!(pools.knows_keys(&wants));
    assert!(!pools.can_satisfy(&wants));
    assert!(pools.get(&wants).is_none());
}

#[test]
fn test_pools_get_some() {
    let mut pools = pools_of(vec![
        ("foo", vec!["foo1", "foo2", "foo3"]),
        ("bar", vec!["bar1", "bar2"]),
    ]);
    let lease = pools.get(&wants_of(vec![("foo", 2), ("bar", 2)])).unwrap();
    assert!(
        pools.get(&wants_of(vec![("foo", 3)])).is_none(),
        "returned too many tokens"
    );
    assert!(pools.knows_lease(&lease));
    pools.put(lease);
    assert!(pools.get(&wants_of(vec![("foo", 3)])).is_some());
}

#[test]
fn test_get_takes_the_last_tokens_in_order() {
    let mut pools = pools_of(vec![("foo", vec!["foo1", "foo2", "foo3"])]);
    let lease = pools.get(&wants_of(vec![("foo", 2)])).unwrap();
    assert_eq!(held(&lease, "foo"), vec!["foo2", "foo3"]);
    let rest = pools.get(&wants_of(vec![("foo", 1)])).unwrap();
    assert_eq!(held(&rest, "foo"), vec!["foo1"]);
    assert!(lease.resources(&user("bar")).is_none());
}

#[test]
fn test_get_is_all_or_nothing() {
    let mut pools = pools_of(vec![("foo", vec!["foo1"]), ("bar", vec![])]);
    assert!(pools.get(&wants_of(vec![("foo", 1), ("bar", 1)])).is_none());
    let lease = pools.get(&wants_of(vec![("foo", 1)])).unwrap();
    assert_eq!(held(&lease, "foo"), vec!["foo1"]);
}

#[test]
fn test_get_of_nothing_succeeds() {
    let mut pools = pools_of(vec![("foo", vec![])]);
    let lease = pools.get(&wants_of(vec![("foo", 0)])).unwrap();
    assert_eq!(held(&lease, "foo"), Vec::<String>::new());
    assert!(pools.get(&wants_of(vec![])).is_some());
}

#[test]
fn test_put_restores_the_pool() {
    let mut pools = pools_of(vec![("foo", vec!["foo1", "foo2", "foo3"])]);
    let lease = pools.get(&wants_of(vec![("foo", 2)])).unwrap();
    pools.put(lease);
    let all = pools.get(&wants_of(vec![("foo", 3)])).unwrap();
    assert_eq!(held(&all, "foo"), vec!["foo1", "foo2", "foo3"]);
}

#[test]
fn test_unknown_key_is_reported() {
    let pools = pools_of(vec![("foo", vec!["foo1"])]);
    assert!(!pools.knows_keys(&wants_of(vec![("gpu", 1)])));
    assert!(!pools.can_satisfy(&wants_of(vec![("gpu", 0)])));
    assert!(pools.has_key(&user("foo")));
    assert!(!pools.has_key(&ResourceKey::Worktree));
}

#[test]
fn test_add_extends_and_creates_keys() {
    let mut pools = pools_of(vec![("foo", vec!["foo1"])]);
    let entries = vec![
        (user("foo"), token("foo2")),
        (user("new"), token("n1")),
        (ResourceKey::Worktree, Resource::Worktree(TempWorktree::new("/tmp/w0".to_string()))),
        (user("new"), token("n2")),
    ];
    assert!(entries_fit_keys(&entries));
    pools.add(entries);
    let lease = pools.get(&wants_of(vec![("foo", 2), ("new", 2)])).unwrap();
    assert_eq!(held(&lease, "foo"), vec!["foo1", "foo2"]);
    assert_eq!(held(&lease, "new"), vec!["n1", "n2"]);
    assert!(pools.has_key(&ResourceKey::Worktree));
}

#[test]
fn test_try_remove_worktrees_drains_in_order() {
    let mut pools = pools_of(vec![("foo", vec!["foo1"])]);
    assert_eq!(pools.try_remove_worktrees().len(), 0);
    pools.add(vec![
        (ResourceKey::Worktree, Resource::Worktree(TempWorktree::new("/tmp/a".to_string()))),
        (ResourceKey::Worktree, Resource::Worktree(TempWorktree::new("/tmp/b".to_string()))),
    ]);
    let taken = pools.try_remove_worktrees();
    let paths: Vec<&str> = taken.iter().map(|w| w.path()).collect();
    assert_eq!(paths, vec!["/tmp/a", "/tmp/b"]);
    assert!(pools.has_key(&ResourceKey::Worktree));
    assert_eq!(pools.try_remove_worktrees().len(), 0);
    let mut wants: ResourceMap<usize> = ResourceMap::new();
    wants.insert(ResourceKey::Worktree, 1);
    assert!(pools.get(&wants).is_none());
}

#[test]
fn test_worktree_lease_and_as_worktree() {
    let mut pools = pools_of(vec![]);
    pools.add(vec![(
        ResourceKey::Worktree,
        Resource::Worktree(TempWorktree::new("/tmp/w".to_string())),
    )]);
    let mut wants: ResourceMap<usize> = ResourceMap::new();
    wants.insert(ResourceKey::Worktree, 1);
    let lease = pools.get(&wants).unwrap();
    let row = lease.resources(&ResourceKey::Worktree).unwrap();
    assert_eq!(row.len(), 1);
    assert_eq!(row[0].as_worktree().path(), "/tmp/w");
    assert_eq!(lease.tokens(), Vec::<(String, Vec<String>)>::new());
}

#[test]
fn test_tokens_lists_user_resources() {
    let mut pools = pools_of(vec![("foo", vec!["foo1", "foo2"]), ("bar", vec!["bar1"])]);
    let lease = pools.get(&wants_of(vec![("bar", 1), ("foo", 2)])).unwrap();
    assert_eq!(
        lease.tokens(),
        vec![
            ("bar".to_string(), vec!["bar1".to_string()]),
            ("foo".to_string(), vec!["foo1".to_string(), "foo2".to_string()]),
        ]
    );
}

#[test]
fn test_kind_checks() {
    let mut bad: ResourceMap<Vec<Resource>> = ResourceMap::new();
    bad.insert(ResourceKey::Worktree, vec![token("x")]);
    assert!(!stock_fits(&bad));
    assert!(!entries_fit_keys(&vec![(
        user("foo"),
        Resource::Worktree(TempWorktree::new("/tmp/w".to_string()))
    )]));
    assert!(token("x").fits_key(&user("foo")));
    assert!(!token("x").fits_key(&ResourceKey::Worktree));
}

#[test]
fn test_resource_map_basics() {
    let mut m: ResourceMap<usize> = ResourceMap::new();
    assert_eq!(m.len(), 0);
    assert_eq!(m.insert(user("a"), 1), None);
    assert_eq!(m.insert(ResourceKey::Worktree, 2), None);
    assert_eq!(m.insert(user("a"), 3), Some(1));
    assert_eq!(m.len(), 2);
    assert_eq!(m.get(&user("a")), Some(&3));
    assert_eq!(m.get(&user("b")), None);
    assert_eq!(m.find(&ResourceKey::Worktree), Some(1));
    assert!(m.contains_key(&user("a")));
    assert!(m.key_at(0).same(&user("a")));
    assert_eq!(*m.value_at(1), 2);
    assert_eq!(m.replace_at(1, 9), 2);
    let last = m.pop().unwrap();
    assert!(last.0.same(&ResourceKey::Worktree));
    assert_eq!(last.1, 9);
    assert_eq!(m.len(), 1);
    assert!(user("a").clone().same(&user("a")));
    assert!(!user("a").same(&user("b")));
}

#[test]
fn test_reversed() {
    assert_eq!(reversed(vec![1, 2, 3]), vec![3, 2, 1]);
    assert_eq!(reversed(Vec::<u8>::new()), Vec::<u8>::new());
}

#[test]
fn test_resource_mutual_exclusion() {
    let mut pools = pools_of(vec![("gpu", vec!["gpu-0"])]);
    let first = pools.get(&wants_of(vec![("gpu", 1)])).unwrap();
    assert!(pools.get(&wants_of(vec![("gpu", 1)])).is_none());
    assert_eq!(
        env_vars(&first.tokens()),
        vec![("LCI_RESOURCE_gpu_0".to_string(), "gpu-0".to_string())]
    );
    pools.put(first);
    let second = pools.get(&wants_of(vec![("gpu", 1)])).unwrap();
    assert_eq!(
        env_vars(&second.tokens()),
        vec![("LCI_RESOURCE_gpu_0".to_string(), "gpu-0".to_string())]
    );
    assert!(pools.get(&wants_of(vec![("gpu", 1)])).is_none());
}

#[test]
fn test_tokens_are_conserved() {
    let mut pools = pools_of(vec![("foo", vec!["a", "b", "c"]), ("bar", vec!["x"])]);
    let one = pools.get(&wants_of(vec![("foo", 1), ("bar", 1)])).unwrap();
    let two = pools.get(&wants_of(vec![("foo", 2)])).unwrap();
    assert_eq!(held(&one, "foo"), vec!["c"]);
    assert_eq!(held(&two, "foo"), vec!["a", "b"]);
    pools.add(vec![(user("foo"), token("d"))]);
    pools.put(one);
    pools.put(two);
    let all = pools.get(&wants_of(vec![("foo", 4), ("bar", 1)])).unwrap();
    assert_eq!(held(&all, "foo"), vec!["d", "c", "a", "b"]);
    assert_eq!(held(&all, "bar"), vec!["x"]);
    assert!(pools.get(&wants_of(vec![("foo", 1)])).is_none());
}
