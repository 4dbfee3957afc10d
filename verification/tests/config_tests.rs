use local_ci::config::{
    config_hash, default_cache_policy, default_depends_on, default_requires_worktree,
    default_shutdown_grace_period, Command, Config, ConfigError, ParsedConfig, Resource, Test,
};
use local_ci::dag::{Dag, DagError};
use local_ci::resource::{ResourceKey, ResourceMap};
use local_ci::test::{CachePolicy, TestDag, TestName};

fn shell(name: &str, line: &str, deps: Vec<&str>) -> Test {
    Test {
        name: name.to_string(),
        command: Command::Shell(line.to_string()),
        requires_worktree: default_requires_worktree(),
        resources: None,
        shutdown_grace_period_s: default_shutdown_grace_period(),
        cache: default_cache_policy(),
        depends_on: deps.into_iter().map(|d| d.to_string()).collect(),
    }
}

fn config(resources: Option<Vec<Resource>>, tests: Vec<Test>) -> Config {
    Config { num_worktrees: 2, resources, tests }
}

fn user(name: &str) -> ResourceKey {
    ResourceKey::UserToken(name.to_string())
}

fn spec_hash(dag: &TestDag, name: &str) -> u64 {
    dag.node(&TestName::new(name.to_string())).unwrap().config_hash
}

fn resolve(tests: Vec<Test>) -> TestDag {
    let parsed = ParsedConfig::from(config(None, tests));
    match parsed {
        Ok(p) => p.tests,
        Err(e) => panic!("{}", e.message()),
    }
}

#[test]
fn test_defaults() {
    assert_eq!(default_shutdown_grace_period(), 60);
    assert_eq!(default_cache_policy(), CachePolicy::ByCommit);
    assert!(default_requires_worktree());
    assert_eq!(default_depends_on(), Vec::<String>::new());
}

#[test]
fn test_resource_name_and_count() {
    let bare = Resource::Bare("gpu".to_string());
    let counted = Resource::Counted { name: "disk".to_string(), count: 3 };
    let explicit = Resource::Explicit {
        name: "host".to_string(),
        tokens: vec!["a".to_string(), "b".to_string()],
    };
    assert_eq!(bare.name(), "gpu");
    assert_eq!(bare.count(), 1);
    assert_eq!(counted.name(), "disk");
    assert_eq!(counted.count(), 3);
    assert_eq!(explicit.name(), "host");
    assert_eq!(explicit.count(), 2);
}

#[test]
fn test_command_program_and_args() {
    let sh = Command::Shell("touch $STARTED".to_string());
    assert!(sh.is_runnable());
    assert_eq!(sh.program(), "bash");
    assert_eq!(sh.args(), vec!["-c".to_string(), "touch $STARTED".to_string()]);
    let raw = Command::Raw(vec!["make".to_string(), "-j".to_string(), "check".to_string()]);
    assert!(raw.is_runnable());
    assert_eq!(raw.program(), "make");
    assert_eq!(raw.args(), vec!["-j".to_string(), "check".to_string()]);
    let alone = Command::Raw(vec!["true".to_string()]);
    assert_eq!(alone.args(), Vec::<String>::new());
    assert!(!Command::Raw(vec![]).is_runnable());
}

#[test]
fn test_commands_runnable() {
    let mut bad = shell("t", "true", vec![]);
    bad.command = Command::Raw(vec![]);
    assert!(!config(None, vec![shell("a", "true", vec![]), bad]).commands_runnable());
    assert!(config(None, vec![shell("a", "true", vec![])]).commands_runnable());
}

#[test]
fn test_parse_resource_tokens() {
    let c = config(
        Some(vec![
            Resource::Bare("gpu".to_string()),
            Resource::Counted { name: "disk".to_string(), count: 3 },
            Resource::Counted { name: "none".to_string(), count: 0 },
            Resource::Explicit {
                name: "host".to_string(),
                tokens: vec!["alpha".to_string(), "beta".to_string()],
            },
        ]),
        vec![],
    );
    let tokens = c.parse_resource_tokens();
    assert_eq!(tokens.len(), 4);
    assert_eq!(tokens.get(&user("gpu")), Some(&vec!["gpu-0".to_string()]));
    assert_eq!(
        tokens.get(&user("disk")),
        Some(&vec!["disk-0".to_string(), "disk-1".to_string(), "disk-2".to_string()])
    );
    assert_eq!(tokens.get(&user("none")), Some(&Vec::<String>::new()));
    assert_eq!(
        tokens.get(&user("host")),
        Some(&vec!["alpha".to_string(), "beta".to_string()])
    );
    assert_eq!(tokens.get(&ResourceKey::Worktree), None);
}

#[test]
fn test_later_declaration_replaces_earlier() {
    let c = config(
        Some(vec![
            Resource::Counted { name: "gpu".to_string(), count: 2 },
            Resource::Bare("gpu".to_string()),
        ]),
        vec![],
    );
    let tokens = c.parse_resource_tokens();
    assert_eq!(tokens.len(), 1);
    assert_eq!(tokens.get(&user("gpu")), Some(&vec!["gpu-0".to_string()]));
}

#[test]
fn test_parse_builds_the_spec() {
    let mut decl = shell("t", "make check", vec![]);
    decl.resources = Some(vec![
        Resource::Bare("gpu".to_string()),
        Resource::Counted { name: "disk".to_string(), count: 2 },
    ]);
    decl.shutdown_grace_period_s = 5;
    decl.cache = CachePolicy::ByTree;
    let others: TestDag = Dag::empty();
    assert!(decl.can_resolve(&others));
    let spec = match decl.parse(&others) {
        Ok(s) => s,
        Err(e) => panic!("{}", e.message()),
    };
    assert_eq!(spec.name.as_str(), "t");
    assert_eq!(spec.program, "bash");
    assert_eq!(spec.args, vec!["-c".to_string(), "make check".to_string()]);
    assert_eq!(spec.shutdown_grace_period_s, 5);
    assert_eq!(spec.cache_policy, CachePolicy::ByTree);
    assert_eq!(spec.depends_on.len(), 0);
    assert_eq!(spec.needs_resources.len(), 3);
    assert_eq!(spec.needs_resources.get(&user("gpu")), Some(&1));
    assert_eq!(spec.needs_resources.get(&user("disk")), Some(&2));
    assert_eq!(spec.needs_resources.get(&ResourceKey::Worktree), Some(&1));
    assert_eq!(spec.config_hash, config_hash(&decl, &vec![]));
}

#[test]
fn test_parse_without_worktree() {
    let mut decl = shell("t", "true", vec![]);
    decl.requires_worktree = false;
    let others: TestDag = Dag::empty();
    let spec = decl.parse(&others).ok().unwrap();
    assert_eq!(spec.needs_resources.len(), 0);
    assert_eq!(spec.needs_resources.get(&ResourceKey::Worktree), None);
}

#[test]
fn test_parse_rejects_duplicate_resource() {
    let mut decl = shell("t", "true", vec![]);
    decl.resources = Some(vec![
        Resource::Bare("gpu".to_string()),
        Resource::Bare("disk".to_string()),
        Resource::Counted { name: "gpu".to_string(), count: 2 },
    ]);
    let others: TestDag = Dag::empty();
    match decl.parse(&others) {
        Err(ConfigError::DuplicateResource { test, resource }) => {
            assert_eq!(test, "t");
            assert_eq!(resource, "gpu");
        }
        _ => panic!("a duplicate resource was accepted"),
    }
}

#[test]
fn test_can_resolve_needs_dependencies() {
    let decl = shell("b", "true", vec!["a"]);
    let none: TestDag = Dag::empty();
    assert!(!decl.can_resolve(&none));
    let a = shell("a", "true", vec![]).parse(&none).ok().unwrap();
    let with_a = none.with_node(a).ok().unwrap();
    assert!(decl.can_resolve(&with_a));
}

#[test]
fn test_dependency_ordering_of_hashes() {
    let before = resolve(vec![shell("b", "run b", vec!["a"]), shell("a", "run a", vec![])]);
    let after = resolve(vec![shell("b", "run b", vec!["a"]), shell("a", "run a again", vec![])]);
    assert_ne!(spec_hash(&before, "a"), spec_hash(&after, "a"));
    assert_ne!(spec_hash(&before, "b"), spec_hash(&after, "b"));
    let same = resolve(vec![shell("b", "run b", vec!["a"]), shell("a", "run a", vec![])]);
    assert_eq!(spec_hash(&before, "a"), spec_hash(&same, "a"));
    assert_eq!(spec_hash(&before, "b"), spec_hash(&same, "b"));
}

#[test]
fn test_hash_follows_deep_dependency() {
    let chain = |line: &str| {
        resolve(vec![
            shell("top", "run top", vec!["mid"]),
            shell("mid", "run mid", vec!["low"]),
            shell("low", line, vec![]),
        ])
    };
    let one = chain("run low");
    let two = chain("run low differently");
    assert_ne!(spec_hash(&one, "low"), spec_hash(&two, "low"));
    assert_ne!(spec_hash(&one, "mid"), spec_hash(&two, "mid"));
    assert_ne!(spec_hash(&one, "top"), spec_hash(&two, "top"));
}

#[test]
fn test_config_hash_reads_every_field() {
    let base = shell("t", "true", vec![]);
    let h = config_hash(&base, &vec![]);
    let mut other = shell("t", "true", vec![]);
    other.requires_worktree = false;
    assert_ne!(config_hash(&other, &vec![]), h);
    let mut other = shell("t", "true", vec![]);
    other.shutdown_grace_period_s = 61;
    assert_ne!(config_hash(&other, &vec![]), h);
    let mut other = shell("t", "true", vec![]);
    other.cache = CachePolicy::NoCache;
    assert_ne!(config_hash(&other, &vec![]), h);
    let mut other = shell("t", "true", vec![]);
    other.resources = Some(vec![]);
    assert_ne!(config_hash(&other, &vec![]), h);
    let mut other = shell("t", "true", vec![]);
    other.command = Command::Raw(vec!["true".to_string()]);
    assert_ne!(config_hash(&other, &vec![]), h);
    assert_ne!(config_hash(&shell("u", "true", vec![]), &vec![]), h);
    assert_ne!(config_hash(&base, &vec![1]), h);
    assert_ne!(config_hash(&base, &vec![1, 2]), config_hash(&base, &vec![2, 1]));
    assert_eq!(config_hash(&shell("t", "true", vec![]), &vec![]), h);
}

#[test]
fn test_config_hash_keeps_the_bounds_of_fields() {
    let raw = |args: Vec<&str>| {
        let mut t = shell("t", "", vec![]);
        t.command = Command::Raw(args.into_iter().map(|a| a.to_string()).collect());
        t
    };
    assert_ne!(
        config_hash(&raw(vec!["ab", "c"]), &vec![]),
        config_hash(&raw(vec!["a", "bc"]), &vec![])
    );
    assert_ne!(
        config_hash(&raw(vec!["ab"]), &vec![]),
        config_hash(&raw(vec!["a", "b"]), &vec![])
    );
    let demanding = |r: Resource| {
        let mut t = shell("t", "true", vec![]);
        t.resources = Some(vec![r]);
        t
    };
    let bare = config_hash(&demanding(Resource::Bare("gpu".to_string())), &vec![]);
    let counted =
        config_hash(&demanding(Resource::Counted { name: "gpu".to_string(), count: 1 }), &vec![]);
    let explicit = config_hash(
        &demanding(Resource::Explicit { name: "gpu".to_string(), tokens: vec!["0".to_string()] }),
        &vec![],
    );
    assert_ne!(bare, counted);
    assert_ne!(bare, explicit);
    assert_ne!(counted, explicit);
    assert_ne!(
        config_hash(&shell("t", "true", vec!["a"]), &vec![7]),
        config_hash(&shell("t", "true", vec![]), &vec![7])
    );
}

#[test]
fn test_tests_are_resolved_children_first() {
    let dag = resolve(vec![
        shell("c", "true", vec!["b", "a"]),
        shell("b", "true", vec!["a"]),
        shell("a", "true", vec![]),
    ]);
    let names: Vec<&str> = dag.nodes().iter().map(|t| t.name.as_str()).collect();
    assert_eq!(names, vec!["a", "b", "c"]);
    let c = dag.node(&TestName::new("c".to_string())).unwrap();
    let deps: Vec<&str> = c.depends_on.iter().map(|d| d.as_str()).collect();
    assert_eq!(deps, vec!["b", "a"]);
}

#[test]
fn test_cycle_rejection() {
    let r = ParsedConfig::from(config(
        None,
        vec![shell("a", "true", vec!["b"]), shell("b", "true", vec!["a"])],
    ));
    match r {
        Err(ConfigError::Dag(DagError::Cycle(name))) => assert!(name == "a" || name == "b"),
        _ => panic!("a cycle was accepted"),
    }
}

#[test]
fn test_duplicate_test_name() {
    let r = ParsedConfig::from(config(
        None,
        vec![shell("a", "true", vec![]), shell("a", "false", vec![])],
    ));
    match r {
        Err(ConfigError::Dag(DagError::DuplicateId(name))) => assert_eq!(name, "a"),
        _ => panic!("a duplicate test name was accepted"),
    }
}

#[test]
fn test_undefined_dependency() {
    let r = ParsedConfig::from(config(None, vec![shell("a", "true", vec!["ghost"])]));
    match r {
        Err(ConfigError::Dag(DagError::NoSuchChild { parent, child })) => {
            assert_eq!(parent, "a");
            assert_eq!(child, "ghost");
        }
        _ => panic!("an undefined dependency was accepted"),
    }
}

#[test]
fn test_undefined_resource() {
    let mut t = shell("t", "true", vec![]);
    t.resources = Some(vec![Resource::Bare("gpu".to_string())]);
    let r = ParsedConfig::from(config(Some(vec![Resource::Bare("disk".to_string())]), vec![t]));
    match r {
        Err(e) => {
            assert_eq!(e.message(), "undefined resource \"gpu\" referenced in test \"t\"");
            match e {
                ConfigError::UndefinedResource { resource, test } => {
                    assert_eq!(resource, "gpu");
                    assert_eq!(test, "t");
                }
                _ => panic!("another error"),
            }
        }
        Ok(_) => panic!("an undefined resource was accepted"),
    }
}

#[test]
fn test_duplicate_resource_in_config() {
    let mut t = shell("t", "true", vec![]);
    t.resources = Some(vec![
        Resource::Bare("gpu".to_string()),
        Resource::Bare("gpu".to_string()),
    ]);
    let r = ParsedConfig::from(config(Some(vec![Resource::Bare("gpu".to_string())]), vec![t]));
    match r {
        Err(e) => assert_eq!(
            e.message(),
            "parsing tests: duplicate resource reference \"gpu\""
        ),
        Ok(_) => panic!("a duplicate resource was accepted"),
    }
}

#[test]
fn test_config_error_message_of_dag_error() {
    let e = ConfigError::Dag(DagError::Cycle("a".to_string()));
    assert_eq!(
        e.message(),
        "parsing test dependency graph: cycle in graph, containing \"a\""
    );
}

#[test]
fn test_parsed_config_primes_the_pools() {
    let mut t = shell("t", "true", vec![]);
    t.resources = Some(vec![Resource::Counted { name: "gpu".to_string(), count: 2 }]);
    t.requires_worktree = false;
    let parsed = ParsedConfig::from(config(
        Some(vec![
            Resource::Counted { name: "gpu".to_string(), count: 2 },
            Resource::Explicit { name: "host".to_string(), tokens: vec!["h".to_string()] },
        ]),
        vec![t],
    ));
    let mut parsed = match parsed {
        Ok(p) => p,
        Err(e) => panic!("{}", e.message()),
    };
    assert_eq!(parsed.num_worktrees, 2);
    assert!(parsed.resource_pools.has_key(&user("gpu")));
    assert!(parsed.resource_pools.has_key(&user("host")));
    assert!(!parsed.resource_pools.has_key(&ResourceKey::Worktree));
    let spec = parsed.tests.node(&TestName::new("t".to_string())).unwrap();
    let lease = parsed.resource_pools.get(&spec.needs_resources).unwrap();
    assert_eq!(
        lease.tokens(),
        vec![("gpu".to_string(), vec!["gpu-0".to_string(), "gpu-1".to_string()])]
    );
    let mut more: ResourceMap<usize> = ResourceMap::new();
    more.insert(user("gpu"), 1);
    assert!(parsed.resource_pools.get(&more).is_none());
}
