use eos_base::init::{
    command_action, join_chars, subst_env, switch_root, true_bool, unit_action, unit_file_kind,
    Command, CommandAction, InitConfig, Job, Process, Scheduler, Script, ServiceType, StepOutcome,
    Unit, UnitAction, UnitFileKind, UnitId, UnitInfo, UnitKind, UnitStore,
};

fn c(s: &str) -> Vec<char> {
    s.chars().collect()
}

fn s(v: &[char]) -> String {
    v.iter().collect()
}

fn words(ws: &[&str]) -> Vec<Vec<char>> {
    ws.iter().map(|w| c(w)).collect()
}

fn env(pairs: &[(&str, &str)]) -> Vec<(Vec<char>, Vec<char>)> {
    pairs.iter().map(|(k, v)| (c(k), c(v))).collect()
}

fn target(name: &str, deps: &[&str]) -> Unit {
    Unit {
        id: UnitId(c(name)),
        info: UnitInfo {
            description: None,
            default_dependencies: true,
            requires_weak: deps.iter().map(|d| UnitId(c(d))).collect(),
            condition_architecture: None,
            condition_board: None,
        },
        kind: UnitKind::Target {},
    }
}

#[test]
fn env_substitution() {
    let e = env(&[("HOME", "/root")]);
    assert_eq!(s(&subst_env(&e, &c("$HOME"))), "/root");
    assert_eq!(s(&subst_env(&e, &c("$NOPE"))), "");
    assert_eq!(s(&subst_env(&e, &c("plain"))), "plain");
}

#[test]
fn commands_by_first_word() {
    let e = env(&[]);
    assert!(matches!(Command::parse(&words(&[]), &e), Ok(Command::Nothing)));
    match Command::parse(&words(&["requires_weak", "a.target", "b"]), &e) {
        Ok(Command::RequiresWeak(ids)) => {
            assert_eq!(ids.iter().map(|i| s(&i.0)).collect::<Vec<_>>(), vec!["a.target", "b"])
        }
        other => panic!("unexpected {:?}", other),
    }
    match Command::parse(&words(&["echo", "hello", "world"]), &e) {
        Ok(Command::Echo(t)) => assert_eq!(s(&t), "hello world"),
        other => panic!("unexpected {:?}", other),
    }
    match Command::parse(&words(&["scheme", "log", "logd", "-v"]), &e) {
        Ok(Command::Service(sv)) => {
            assert_eq!(s(&sv.cmd), "logd");
            assert_eq!(sv.args.len(), 1);
            assert!(matches!(&sv.type_, ServiceType::Scheme(n) if s(n) == "log"));
        }
        other => panic!("unexpected {:?}", other),
    }
    match Command::parse(&words(&["notify", "pcid"]), &e) {
        Ok(Command::Service(sv)) => assert!(matches!(sv.type_, ServiceType::Notify)),
        other => panic!("unexpected {:?}", other),
    }
    match Command::parse(&words(&["nowait", "x"]), &e) {
        Ok(Command::Service(sv)) => assert!(matches!(sv.type_, ServiceType::OneshotAsync)),
        other => panic!("unexpected {:?}", other),
    }
    match Command::parse(&words(&["ls", "-l"]), &e) {
        Ok(Command::Service(sv)) => {
            assert_eq!(s(&sv.cmd), "ls");
            assert!(matches!(sv.type_, ServiceType::Oneshot));
        }
        other => panic!("unexpected {:?}", other),
    }
    match Command::parse(&words(&["scheme"]), &e) {
        Err(m) => assert_eq!(s(&m), "init: failed to run scheme: no argument"),
        other => panic!("unexpected {:?}", other),
    }
    match Command::parse(&words(&["notify", "A=1"]), &e) {
        Err(m) => assert_eq!(s(&m), "no command given"),
        other => panic!("unexpected {:?}", other),
    }
}

#[test]
fn process_takes_leading_variables() {
    let e = env(&[("X", "from-env")]);
    let p = Process::parse(&words(&["A=1", "B=$X", "C=", "X=$", "prog", "D=2"]), &e).unwrap();
    assert_eq!(s(&p.cmd), "prog");
    assert_eq!(p.args.iter().map(|a| s(a)).collect::<Vec<_>>(), vec!["D=2"]);
    let vars: Vec<(String, String)> = p.envs.iter().map(|(k, v)| (s(k), s(v))).collect();
    assert!(vars.contains(&("A".to_string(), "1".to_string())));
    assert!(vars.contains(&("B".to_string(), "from-env".to_string())));
    assert!(vars.contains(&("X".to_string(), "from-env".to_string())));
    assert!(!vars.iter().any(|(k, _)| k == "C"));
}

#[test]
fn scripts_skip_blank_lines_and_comments() {
    let e = env(&[]);
    let (script, errors) = Script::from_str(&c("# comment\n\n  echo hi  \nscheme\nrequires_weak x\n"), &e);
    assert_eq!(script.0.len(), 2);
    assert!(matches!(&script.0[0], Command::Echo(t) if s(t) == "hi"));
    assert!(matches!(&script.0[1], Command::RequiresWeak(_)));
    assert_eq!(errors.len(), 1);
}

#[test]
fn unit_files_by_extension() {
    assert!(matches!(unit_file_kind(&c("00_base")), UnitFileKind::Script));
    assert!(matches!(unit_file_kind(&c("a.service")), UnitFileKind::Service));
    assert!(matches!(unit_file_kind(&c("b.target")), UnitFileKind::Target));
    assert!(matches!(unit_file_kind(&c("c.conf")), UnitFileKind::Invalid));
    assert!(true_bool());
}

#[test]
fn legacy_script_units_list_their_dependencies() {
    let (u, errors) = Unit::from_script(c("10_net"), &c("requires_weak a b\necho x\nrequires_weak c\n"), &env(&[]));
    assert!(errors.is_empty());
    assert_eq!(u.info.requires_weak.iter().map(|i| s(&i.0)).collect::<Vec<_>>(), vec!["a", "b", "c"]);
    assert!(matches!(u.kind, UnitKind::LegacyScript { .. }));
}

#[test]
fn config_from_environment() {
    let cfg = InitConfig::new(Some(&c("DEBUG")), Some(&c("a,b")));
    assert!(cfg.log_debug);
    assert_eq!(cfg.skip_cmd.iter().map(|x| s(x)).collect::<Vec<_>>(), vec!["a", "b"]);
    assert_eq!(cfg.envs, env(&[("RUST_BACKTRACE", "1")]));
    let cfg = InitConfig::new(Some(&c("INFO")), Some(&c("")));
    assert!(!cfg.log_debug);
    assert!(cfg.skip_cmd.is_empty());
    let cfg = InitConfig::new(None, None);
    assert!(!cfg.log_debug && cfg.skip_cmd.is_empty());
    assert!(InitConfig::new(Some(&c("TRACE")), None).log_debug);
}

#[test]
fn switching_roots() {
    let mut store = UnitStore::new();
    let mut cfg = InitConfig::new(None, None);
    switch_root(&mut store, &mut cfg, &c("/scheme/initfs"), &c("/scheme/initfs/etc"));
    assert_eq!(
        store.config_dirs.iter().map(|d| s(d)).collect::<Vec<_>>(),
        vec!["/scheme/initfs/lib/init.d", "/scheme/initfs/etc/init.d"]
    );
    switch_root(&mut store, &mut cfg, &c("/usr"), &c("/etc"));
    assert_eq!(
        cfg.envs,
        env(&[("RUST_BACKTRACE", "1"), ("PATH", "/usr/bin"), ("LD_LIBRARY_PATH", "/usr/lib")])
    );
    assert_eq!(s(&join_chars(&c("/"), &c("bin"))), "/bin");
    assert_eq!(s(&join_chars(&c("a"), &c("/abs"))), "/abs");
    assert_eq!(s(&join_chars(&c(""), &c("x"))), "x");
    assert_eq!(
        store.unit_paths(&UnitId(c("u"))).iter().map(|p| s(p)).collect::<Vec<_>>(),
        vec!["/etc/init.d/u", "/usr/lib/init.d/u"]
    );
}

#[test]
fn skipped_commands_are_not_run() {
    let cfg = InitConfig::new(None, Some(&c("bad")));
    let e = env(&[]);
    let bad = Command::parse(&words(&["bad", "x"]), &e).unwrap();
    let good = Command::parse(&words(&["good"]), &e).unwrap();
    assert!(matches!(command_action(&bad, &cfg), CommandAction::Skip));
    assert!(matches!(command_action(&good, &cfg), CommandAction::Spawn));
    assert!(matches!(command_action(&Command::Nothing, &cfg), CommandAction::Ignore));
    assert!(matches!(command_action(&Command::Echo(c("t")), &cfg), CommandAction::Print(t) if s(&t) == "t"));
    assert!(matches!(unit_action(&target("t.target", &[]), &cfg), UnitAction::Reached));
}

#[test]
fn loading_follows_dependencies() {
    let mut store = UnitStore::new();
    let mut load = store.load_units(UnitId(c("root.target")));
    let next = load.next(&store).unwrap();
    assert_eq!(s(&next.0), "root.target");
    load.loaded(&mut store, Some(target("root.target", &["a", "b"])));
    let next = load.next(&store).unwrap();
    assert_eq!(s(&next.0), "b");
    load.loaded(&mut store, None);
    let next = load.next(&store).unwrap();
    assert_eq!(s(&next.0), "a");
    load.loaded(&mut store, Some(target("a", &["root.target"])));
    assert!(load.next(&store).is_none());
    assert_eq!(load.loaded.iter().map(|i| s(&i.0)).collect::<Vec<_>>(), vec!["root.target", "a"]);
    assert_eq!(s(&store.unit(&UnitId(c("a"))).id.0), "a");
    let got = store.load_single_unit(&UnitId(c("z")), Some(target("z", &[])));
    assert_eq!(s(&got.unwrap().0), "z");
    assert!(store.load_single_unit(&UnitId(c("y")), None).is_none());
    store.unit_mut(&UnitId(c("z"))).info.default_dependencies = false;
    assert!(!store.unit(&UnitId(c("z"))).info.default_dependencies);
}

#[test]
fn scheduler_defers_units_with_queued_dependencies() {
    let mut store = UnitStore::new();
    store.insert(target("a", &["b"]));
    store.insert(target("b", &[]));
    let mut sched = Scheduler::new();
    sched.schedule_start(&store, &vec![UnitId(c("a")), UnitId(c("b"))], &c("x86_64"), &c("pc"));
    assert_eq!(sched.pending.len(), 2);
    assert!(matches!(sched.step(&store), StepOutcome::Deferred(id) if s(&id.0) == "a"));
    assert!(matches!(sched.step(&store), StepOutcome::Run(id) if s(&id.0) == "b"));
    assert!(matches!(sched.step(&store), StepOutcome::Run(id) if s(&id.0) == "a"));
    assert!(matches!(sched.step(&store), StepOutcome::Idle));
    let _unused = Job { unit: UnitId(c("q")) };
}

#[test]
fn conditions_filter_scheduled_units() {
    let mut store = UnitStore::new();
    let mut u = target("arm-only", &[]);
    u.info.condition_architecture = Some(vec![c("aarch64")]);
    store.insert(u);
    let mut sched = Scheduler::new();
    sched.schedule_start(&store, &vec![UnitId(c("arm-only"))], &c("x86_64"), &c("pc"));
    assert!(sched.pending.is_empty());
    sched.schedule_start(&store, &vec![UnitId(c("arm-only"))], &c("aarch64"), &c("pc"));
    assert_eq!(sched.pending.len(), 1);
}

#[test]
fn loading_awaits_the_unit_it_names() {
    let mut store = UnitStore::new();
    let mut load = store.load_units(UnitId(c("root.target")));
    assert!(load.current.is_none());
    let next = load.next(&store).unwrap();
    assert_eq!(s(&load.current.as_ref().unwrap().0), s(&next.0));
    load.loaded(&mut store, Some(target("root.target", &[])));
    assert!(load.current.is_none());
    assert!(load.next(&store).is_none());
    assert!(load.current.is_none());
}
