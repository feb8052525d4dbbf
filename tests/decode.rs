use workflow_decode::{
    decode_container, decode_one_or_many, decode_trigger, dependency_order, valid_cron, valid_job_id, Container,
    CronSchedule, DecodeError, ErrorKind, Mode, Node, Trigger, Workflow,
};

fn text(s: &str) -> Node {
    Node::Str(s.to_string())
}

fn map(entries: Vec<(&str, Node)>) -> Node {
    Node::Mapping(entries.into_iter().map(|(k, v)| (k.to_string(), v)).collect())
}

fn list(items: Vec<Node>) -> Node {
    Node::Sequence(items)
}

fn job(needs: Vec<&str>) -> Node {
    let mut fields = vec![("runs-on", text("ubuntu-latest"))];
    if !needs.is_empty() {
        fields.push(("needs", list(needs.into_iter().map(text).collect())));
    }
    map(fields)
}

fn workflow(jobs: Vec<(&str, Node)>) -> Node {
    map(vec![("on", text("push")), ("jobs", map(jobs))])
}

fn kind(r: Result<Workflow, DecodeError>) -> ErrorKind {
    match r {
        Ok(_) => panic!("expected an error"),
        Err(e) => e.kind,
    }
}

#[test]
fn cron_every_five_minutes_is_accepted() {
    assert!(valid_cron("*/5 * * * *"));
    assert!(CronSchedule::new("*/5 * * * *".to_string()).is_ok());
}

#[test]
fn cron_prose_is_rejected() {
    assert!(!valid_cron("5 minutes"));
    let e = CronSchedule::new("5 minutes".to_string()).unwrap_err();
    assert_eq!(e.kind, ErrorKind::InvalidValue);
}

#[test]
fn cron_four_fields_is_rejected() {
    assert!(!valid_cron("* * * *"));
    let e = CronSchedule::new("* * * *".to_string()).unwrap_err();
    assert_eq!(e.kind, ErrorKind::InvalidValue);
}

#[test]
fn cron_ranges_lists_and_steps() {
    assert!(valid_cron("0 0 * * *"));
    assert!(valid_cron("1-5,10 */2 1 1-12 0-6"));
    assert!(valid_cron("  15   4\t* * 7 "));
    assert!(valid_cron("0-30/10 0 1,15 * 1"));
    assert!(!valid_cron("60 * * * *"));
    assert!(!valid_cron("* 24 * * *"));
    assert!(!valid_cron("* * 0 * *"));
    assert!(!valid_cron("* * * 13 *"));
    assert!(!valid_cron("* * * * 8"));
    assert!(!valid_cron("5-1 * * * *"));
    assert!(!valid_cron("*/0 * * * *"));
    assert!(!valid_cron("1,,2 * * * *"));
    assert!(!valid_cron("* * * * * *"));
    assert!(!valid_cron(""));
}

#[test]
fn cron_in_a_workflow_schedule() {
    let doc = |c: &str| {
        map(vec![
            ("on", map(vec![("schedule", list(vec![map(vec![("cron", text(c))])]))])),
            ("jobs", map(vec![("build", job(vec![]))])),
        ])
    };
    assert!(Workflow::decode(doc("*/5 * * * *"), Mode::Strict).is_ok());
    assert_eq!(kind(Workflow::decode(doc("5 minutes"), Mode::Strict)), ErrorKind::InvalidValue);
    assert_eq!(kind(Workflow::decode(doc("* * * *"), Mode::Strict)), ErrorKind::InvalidValue);
}

#[test]
fn job_id_syntax() {
    assert!(valid_job_id("build"));
    assert!(valid_job_id("x_y-z9"));
    assert!(valid_job_id("_setup"));
    assert!(!valid_job_id(""));
    assert!(!valid_job_id("1abc"));
    assert!(!valid_job_id("a b"));
    assert!(!valid_job_id("naïve"));
}

#[test]
fn runs_on_one_or_many_are_equal() {
    let one = decode_one_or_many(&text("ubuntu-latest"), "runs-on").unwrap();
    let many = decode_one_or_many(&list(vec![text("ubuntu-latest")]), "runs-on").unwrap();
    assert_eq!(one, many);
    assert_eq!(one, vec!["ubuntu-latest".to_string()]);
    let two = decode_one_or_many(&list(vec![text("self-hosted"), text("linux")]), "runs-on").unwrap();
    assert_eq!(two, vec!["self-hosted".to_string(), "linux".to_string()]);
    let bad = decode_one_or_many(&Node::Null, "runs-on").unwrap_err();
    assert_eq!(bad.kind, ErrorKind::ShapeMismatch);
}

#[test]
fn runs_on_in_a_job() {
    let w1 = Workflow::decode(workflow(vec![("build", map(vec![("runs-on", text("ubuntu-latest"))]))]), Mode::Strict)
        .unwrap();
    let w2 = Workflow::decode(
        workflow(vec![("build", map(vec![("runs-on", list(vec![text("ubuntu-latest")]))]))]),
        Mode::Strict,
    )
    .unwrap();
    assert_eq!(w1.jobs[0].1.runs_on, w2.jobs[0].1.runs_on);
    let empty = workflow(vec![("build", map(vec![("runs-on", list(vec![]))]))]);
    assert_eq!(kind(Workflow::decode(empty, Mode::Strict)), ErrorKind::InvalidValue);
    let missing = workflow(vec![("build", map(vec![]))]);
    assert_eq!(kind(Workflow::decode(missing, Mode::Strict)), ErrorKind::MissingRequiredField);
}

fn same_container(a: &Container, b: &Container) {
    assert_eq!(a.name, b.name);
    assert_eq!(a.credentials, b.credentials);
    assert_eq!(a.env, b.env);
    assert_eq!(a.ports, b.ports);
    assert_eq!(a.volumes, b.volumes);
    assert_eq!(a.options, b.options);
}

#[test]
fn container_bare_name_equals_detailed() {
    let bare = decode_container(&text("node:18"), Mode::Strict).unwrap();
    let detailed = decode_container(&map(vec![("name", text("node:18"))]), Mode::Strict).unwrap();
    same_container(&bare, &detailed);
    let with_defaults = decode_container(
        &map(vec![("name", text("node:18")), ("ports", list(vec![])), ("env", Node::Null)]),
        Mode::Strict,
    )
    .unwrap();
    same_container(&bare, &with_defaults);
    assert_eq!(bare.name, "node:18");
    assert!(bare.ports.is_empty() && bare.credentials.is_none());
}

#[test]
fn container_detailed_fields_and_errors() {
    let c = decode_container(
        &map(vec![
            ("name", text("redis")),
            ("credentials", map(vec![("username", text("me"))])),
            ("ports", list(vec![text("6379:6379")])),
            ("options", list(vec![text("--cpus 1")])),
        ]),
        Mode::Strict,
    )
    .unwrap();
    assert_eq!(c.credentials, Some(vec![("username".to_string(), "me".to_string())]));
    assert_eq!(c.ports, vec!["6379:6379".to_string()]);
    assert_eq!(c.options, vec!["--cpus 1".to_string()]);
    let e = decode_container(&Node::Int(1), Mode::Strict).unwrap_err();
    assert_eq!(e.kind, ErrorKind::ShapeMismatch);
    let e = decode_container(&map(vec![("ports", list(vec![]))]), Mode::Strict).unwrap_err();
    assert_eq!(e.kind, ErrorKind::MissingRequiredField);
    let e = decode_container(&map(vec![("name", text("a")), ("image", text("b"))]), Mode::Strict).unwrap_err();
    assert_eq!(e.kind, ErrorKind::UnknownField);
    assert!(decode_container(&map(vec![("name", text("a")), ("image", text("b"))]), Mode::Lenient).is_ok());
    let e = decode_container(&map(vec![("name", text("a")), ("name", text("b"))]), Mode::Strict).unwrap_err();
    assert_eq!(e.kind, ErrorKind::DuplicateKey);
}

#[test]
fn container_from_str() {
    let c: Container = "alpine:3".parse().unwrap();
    assert_eq!(c.name, "alpine:3");
    assert!(c.env.is_none() && c.volumes.is_empty() && c.options.is_empty());
}

#[test]
fn cycle_is_rejected() {
    let doc = workflow(vec![("a", job(vec!["b"])), ("b", job(vec!["a"]))]);
    let e = Workflow::decode(doc, Mode::Strict).unwrap_err();
    assert_eq!(e.kind, ErrorKind::CyclicDependency);
    assert!(e.subject == "a" || e.subject == "b");
    let self_loop = workflow(vec![("a", job(vec!["a"]))]);
    assert_eq!(kind(Workflow::decode(self_loop, Mode::Strict)), ErrorKind::CyclicDependency);
}

#[test]
fn chain_decodes_and_orders() {
    let doc = workflow(vec![("a", job(vec!["b"])), ("b", job(vec!["c"])), ("c", job(vec![]))]);
    let w = Workflow::decode(doc, Mode::Strict).unwrap();
    let ids: Vec<String> = w.jobs.iter().map(|(k, _)| k.clone()).collect();
    assert_eq!(ids, vec!["a".to_string(), "b".to_string(), "c".to_string()]);
    let needs: Vec<Vec<String>> = w.jobs.iter().map(|(_, j)| j.needs.clone()).collect();
    let order = dependency_order(&ids, &needs).unwrap();
    assert_eq!(order, vec![2, 1, 0]);
}

#[test]
fn dangling_reference_names_the_missing_job() {
    let doc = workflow(vec![("build", job(vec!["ghost"]))]);
    let e = Workflow::decode(doc, Mode::Strict).unwrap_err();
    assert_eq!(e.kind, ErrorKind::DanglingReference);
    assert_eq!(e.subject, "ghost");
}

#[test]
fn malformed_need_is_invalid_not_dangling() {
    let doc = workflow(vec![("build", job(vec!["1st"]))]);
    assert_eq!(kind(Workflow::decode(doc, Mode::Strict)), ErrorKind::InvalidValue);
    let doc = workflow(vec![("a", job(vec!["b", "b"])), ("b", job(vec![]))]);
    assert_eq!(kind(Workflow::decode(doc, Mode::Strict)), ErrorKind::DuplicateKey);
}

#[test]
fn dependency_order_errors() {
    let ids = vec!["a".to_string(), "a".to_string()];
    let needs = vec![vec![], vec![]];
    assert_eq!(dependency_order(&ids, &needs).unwrap_err().kind, ErrorKind::DuplicateKey);
    let ids = vec!["a".to_string()];
    let needs = vec![vec!["zzz".to_string()]];
    assert_eq!(dependency_order(&ids, &needs).unwrap_err().kind, ErrorKind::DanglingReference);
    let ids: Vec<String> = vec![];
    let needs: Vec<Vec<String>> = vec![];
    assert_eq!(dependency_order(&ids, &needs).unwrap(), Vec::<usize>::new());
}

#[test]
fn schedule_mapping_is_a_schedule() {
    let on = map(vec![("schedule", list(vec![map(vec![("cron", text("0 0 * * *"))])]))]);
    match decode_trigger(on, Mode::Strict).unwrap() {
        Trigger::Schedule(s) => {
            assert_eq!(s.len(), 1);
            assert_eq!(s[0].cron, "0 0 * * *");
        },
        Trigger::Events(_) => panic!("a schedule mapping decoded to events"),
    }
}

#[test]
fn schedule_mixed_with_events_is_rejected() {
    let on = map(vec![
        ("push", Node::Null),
        ("schedule", list(vec![map(vec![("cron", text("0 0 * * *"))])])),
    ]);
    assert_eq!(decode_trigger(on, Mode::Strict).unwrap_err().kind, ErrorKind::ShapeMismatch);
    let on = map(vec![("schedule", text("0 0 * * *"))]);
    assert_eq!(decode_trigger(on, Mode::Strict).unwrap_err().kind, ErrorKind::ShapeMismatch);
}

#[test]
fn event_shapes() {
    match decode_trigger(text("push"), Mode::Strict).unwrap() {
        Trigger::Events(v) => {
            assert_eq!(v.len(), 1);
            assert_eq!(v[0].name, "push");
            assert!(v[0].config.is_none());
        },
        _ => panic!("expected events"),
    }
    let on = list(vec![text("push"), map(vec![("pull_request", map(vec![("branches", list(vec![text("main")]))]))])]);
    match decode_trigger(on, Mode::Strict).unwrap() {
        Trigger::Events(v) => {
            assert_eq!(v.len(), 2);
            assert_eq!(v[1].name, "pull_request");
            assert!(matches!(v[1].config, Some(Node::Mapping(_))));
        },
        _ => panic!("expected events"),
    }
    let on = map(vec![("push", Node::Null), ("workflow_dispatch", map(vec![]))]);
    match decode_trigger(on, Mode::Strict).unwrap() {
        Trigger::Events(v) => {
            assert_eq!(v.len(), 2);
            assert_eq!(v[0].name, "push");
            assert!(v[0].config.is_none());
            assert!(v[1].config.is_some());
        },
        _ => panic!("expected events"),
    }
    let on = list(vec![map(vec![("a", Node::Null), ("b", Node::Null)])]);
    assert_eq!(decode_trigger(on, Mode::Strict).unwrap_err().kind, ErrorKind::ShapeMismatch);
    assert_eq!(decode_trigger(Node::Bool(true), Mode::Strict).unwrap_err().kind, ErrorKind::ShapeMismatch);
}

#[test]
fn unknown_root_key_strict_and_lenient() {
    let doc = || {
        map(vec![
            ("on", text("push")),
            ("jobs", map(vec![("build", job(vec![]))])),
            ("colour", text("blue")),
        ])
    };
    let e = Workflow::decode(doc(), Mode::Strict).unwrap_err();
    assert_eq!(e.kind, ErrorKind::UnknownField);
    assert_eq!(e.subject, "colour");
    let w = Workflow::decode(doc(), Mode::Lenient).unwrap();
    assert_eq!(w.jobs.len(), 1);
}

#[test]
fn root_errors() {
    assert_eq!(kind(Workflow::decode(text("hello"), Mode::Strict)), ErrorKind::ShapeMismatch);
    let no_on = map(vec![("jobs", map(vec![("build", job(vec![]))]))]);
    assert_eq!(kind(Workflow::decode(no_on, Mode::Strict)), ErrorKind::MissingRequiredField);
    let no_jobs = map(vec![("on", text("push"))]);
    assert_eq!(kind(Workflow::decode(no_jobs, Mode::Strict)), ErrorKind::MissingRequiredField);
    let dup = map(vec![("on", text("push")), ("on", text("pull_request"))]);
    assert_eq!(kind(Workflow::decode(dup, Mode::Strict)), ErrorKind::DuplicateKey);
    let dup_jobs = workflow(vec![("a", job(vec![])), ("a", job(vec![]))]);
    assert_eq!(kind(Workflow::decode(dup_jobs, Mode::Strict)), ErrorKind::DuplicateKey);
    let jobs_list = map(vec![("on", text("push")), ("jobs", list(vec![]))]);
    assert_eq!(kind(Workflow::decode(jobs_list, Mode::Strict)), ErrorKind::ShapeMismatch);
}

#[test]
fn numeric_fields_must_be_positive() {
    let with_timeout = |v: i64| {
        workflow(vec![("build", map(vec![("runs-on", text("linux")), ("timeout-minutes", Node::Int(v))]))])
    };
    assert_eq!(kind(Workflow::decode(with_timeout(0), Mode::Strict)), ErrorKind::InvalidValue);
    assert_eq!(kind(Workflow::decode(with_timeout(-3), Mode::Strict)), ErrorKind::InvalidValue);
    let w = Workflow::decode(with_timeout(30), Mode::Strict).unwrap();
    assert_eq!(w.jobs[0].1.timeout_minutes, Some(30));
    let strategy = |v: i64| {
        workflow(vec![(
            "build",
            map(vec![
                ("runs-on", text("linux")),
                ("strategy", map(vec![("max-parallel", Node::Int(v)), ("fail-fast", Node::Bool(false))])),
            ]),
        )])
    };
    assert_eq!(kind(Workflow::decode(strategy(0), Mode::Strict)), ErrorKind::InvalidValue);
    let w = Workflow::decode(strategy(2), Mode::Strict).unwrap();
    let s = w.jobs[0].1.strategy.as_ref().unwrap();
    assert_eq!(s.max_parallel, Some(2));
    assert_eq!(s.fail_fast, Some(false));
    assert!(s.matrix.is_none());
}

#[test]
fn full_job_decodes() {
    let step = map(vec![
        ("name", text("Check out")),
        ("uses", text("actions/checkout@v4")),
        ("with", map(vec![("fetch-depth", text("0"))])),
        ("continue-on-error", Node::Bool(true)),
    ]);
    let run = map(vec![("run", text("make test")), ("env", map(vec![("CI", text("1"))]))]);
    let doc = map(vec![
        ("name", text("CI")),
        ("on", list(vec![text("push"), text("pull_request")])),
        ("env", map(vec![("RUST_LOG", text("debug"))])),
        ("defaults", map(vec![("run", map(vec![("shell", text("bash"))]))])),
        (
            "jobs",
            map(vec![(
                "test",
                map(vec![
                    ("name", text("Tests")),
                    ("runs-on", text("ubuntu-latest")),
                    ("environment", map(vec![("name", text("staging")), ("url", text("https://example.test"))])),
                    ("outputs", map(vec![("version", text("${{ steps.v.outputs.version }}"))])),
                    ("if", text("github.event_name == 'push'")),
                    ("steps", list(vec![step, run])),
                    ("container", text("rust:1")),
                    ("services", list(vec![map(vec![("name", text("redis")), ("ports", list(vec![text("6379")]))])])),
                    ("strategy", map(vec![("matrix", map(vec![("os", list(vec![text("a"), text("b")]))]))])),
                ]),
            )]),
        ),
    ]);
    let w = Workflow::decode(doc, Mode::Strict).unwrap();
    assert_eq!(w.name.as_deref(), Some("CI"));
    assert_eq!(w.env, Some(vec![("RUST_LOG".to_string(), "debug".to_string())]));
    let d = w.defaults.as_ref().unwrap();
    assert_eq!(d.run.shell.as_deref(), Some("bash"));
    assert!(d.run.working_directory.is_none());
    let (id, j) = &w.jobs[0];
    assert_eq!(id, "test");
    assert_eq!(j.name.as_deref(), Some("Tests"));
    let env = j.environment.as_ref().unwrap();
    assert_eq!(env.name, "staging");
    assert_eq!(env.url.as_deref(), Some("https://example.test"));
    assert_eq!(j.steps.len(), 2);
    assert_eq!(j.steps[0].uses.as_deref(), Some("actions/checkout@v4"));
    assert_eq!(j.steps[0].with, vec![("fetch-depth".to_string(), "0".to_string())]);
    assert_eq!(j.steps[0].continue_on_error, Some(true));
    assert_eq!(j.steps[1].run.as_deref(), Some("make test"));
    assert_eq!(j.steps[1].env, vec![("CI".to_string(), "1".to_string())]);
    assert_eq!(j.container.as_ref().unwrap().name, "rust:1");
    assert_eq!(j.services[0].ports, vec!["6379".to_string()]);
    assert!(matches!(j.strategy.as_ref().unwrap().matrix, Some(Node::Mapping(_))));
    assert_eq!(j.run_if.as_deref(), Some("github.event_name == 'push'"));
}

#[test]
fn error_path_names_the_job() {
    let doc = workflow(vec![("build", map(vec![("runs-on", map(vec![]))]))]);
    let e = Workflow::decode(doc, Mode::Strict).unwrap_err();
    assert_eq!(e.kind, ErrorKind::ShapeMismatch);
    assert_eq!(e.path, vec!["jobs".to_string(), "build".to_string()]);
    assert_eq!(e.subject, "runs-on");
}

#[test]
fn step_fields_checked() {
    let doc = |step: Node| workflow(vec![("build", map(vec![("runs-on", text("x")), ("steps", list(vec![step]))]))]);
    assert_eq!(
        kind(Workflow::decode(doc(map(vec![("uses", list(vec![]))])), Mode::Strict)),
        ErrorKind::ShapeMismatch
    );
    assert_eq!(
        kind(Workflow::decode(doc(map(vec![("run", text("x")), ("shell", text("y"))])), Mode::Strict)),
        ErrorKind::UnknownField
    );
    assert!(Workflow::decode(doc(map(vec![("run", text("x")), ("shell", text("y"))])), Mode::Lenient).is_ok());
    assert_eq!(
        kind(Workflow::decode(doc(map(vec![("env", map(vec![("A", text("1")), ("A", text("2"))]))])), Mode::Strict)),
        ErrorKind::DuplicateKey
    );
}

#[test]
fn cycle_witness_lies_on_the_cycle() {
    let doc = workflow(vec![("c", job(vec!["a"])), ("a", job(vec!["b"])), ("b", job(vec!["a"]))]);
    let e = Workflow::decode(doc, Mode::Strict).unwrap_err();
    assert_eq!(e.kind, ErrorKind::CyclicDependency);
    assert!(e.subject == "a" || e.subject == "b", "witness {}", e.subject);
}

fn sample_document() -> Node {
    let step = map(vec![
        ("name", text("Check out")),
        ("uses", text("actions/checkout@v4")),
        ("with", map(vec![("fetch-depth", text("0"))])),
        ("timeout-minutes", Node::Int(5)),
    ]);
    map(vec![
        ("name", text("CI")),
        ("on", map(vec![("push", map(vec![("branches", list(vec![text("main")]))])), ("workflow_dispatch", Node::Null)])),
        ("env", map(vec![("RUST_LOG", text("debug"))])),
        ("defaults", map(vec![("run", map(vec![("working-directory", text("src"))]))])),
        (
            "jobs",
            map(vec![
                (
                    "test",
                    map(vec![
                        ("needs", text("lint")),
                        ("runs-on", list(vec![text("self-hosted"), text("linux")])),
                        ("environment", map(vec![("name", text("staging"))])),
                        ("steps", list(vec![step])),
                        ("container", map(vec![("name", text("rust:1")), ("volumes", list(vec![text("/a:/b")]))])),
                        ("services", list(vec![map(vec![("name", text("db"))])])),
                        (
                            "strategy",
                            map(vec![("matrix", map(vec![("os", list(vec![text("x")]))])), ("max-parallel", Node::Int(3))]),
                        ),
                        ("continue-on-error", Node::Bool(false)),
                    ]),
                ),
                ("lint", map(vec![("runs-on", text("ubuntu-latest")), ("outputs", map(vec![("ok", text("yes"))]))])),
            ]),
        ),
    ])
}

#[test]
fn encode_then_decode_gives_the_same_workflow() {
    let w1 = Workflow::decode(sample_document(), Mode::Strict).unwrap();
    let before = format!("{:?}", w1);
    let doc = w1.encode();
    let w2 = Workflow::decode(doc, Mode::Strict).unwrap();
    assert_eq!(format!("{:?}", w2), before);
    let w3 = Workflow::decode(w2.encode(), Mode::Lenient).unwrap();
    assert_eq!(format!("{:?}", w3), before);
}

#[test]
fn encode_then_decode_schedule() {
    let doc = map(vec![
        (
            "on",
            map(vec![(
                "schedule",
                list(vec![map(vec![("cron", text("*/5 * * * *"))]), map(vec![("cron", text("0 3 * * 1-5"))])]),
            )]),
        ),
        ("jobs", map(vec![("nightly", job(vec![]))])),
    ]);
    let w1 = Workflow::decode(doc, Mode::Strict).unwrap();
    let before = format!("{:?}", w1);
    let w2 = Workflow::decode(w1.encode(), Mode::Strict).unwrap();
    assert_eq!(format!("{:?}", w2), before);
    match w2.on {
        Trigger::Schedule(s) => assert_eq!(s[1].cron, "0 3 * * 1-5"),
        Trigger::Events(_) => panic!("expected a schedule"),
    }
}

#[test]
fn encoded_container_is_detailed() {
    let c = decode_container(&text("node:18"), Mode::Strict).unwrap();
    match c.encode() {
        Node::Mapping(es) => {
            assert_eq!(es.len(), 6);
            assert_eq!(es[0].0, "name");
            assert!(matches!(&es[0].1, Node::Str(s) if s == "node:18"));
        },
        other => panic!("expected a mapping, got {:?}", other),
    }
}

#[test]
fn bad_cron_path_locates_the_entry() {
    for c in ["5 minutes", "* * * *"] {
        let doc = map(vec![
            ("on", map(vec![("schedule", list(vec![map(vec![("cron", text(c))])]))])),
            ("jobs", map(vec![("build", job(vec![]))])),
        ]);
        let e = Workflow::decode(doc, Mode::Strict).unwrap_err();
        assert_eq!(e.kind, ErrorKind::InvalidValue);
        assert_eq!(e.path, vec!["on".to_string(), "schedule".to_string(), "0".to_string(), "cron".to_string()]);
    }
}

#[test]
fn dangling_path_names_the_needing_job() {
    let doc = workflow(vec![("build", job(vec!["ghost"]))]);
    let e = Workflow::decode(doc, Mode::Strict).unwrap_err();
    assert_eq!(e.path, vec!["jobs".to_string(), "build".to_string()]);
}

#[test]
fn unknown_root_key_is_named() {
    let doc = map(vec![("on", text("push")), ("bogus", Node::Int(1)), ("jobs", map(vec![("build", job(vec![]))]))]);
    let e = Workflow::decode(doc, Mode::Strict).unwrap_err();
    assert_eq!(e.kind, ErrorKind::UnknownField);
    assert_eq!(e.subject, "bogus");
    assert!(e.path.is_empty());
}

#[test]
fn scalars_are_read_as_text() {
    let step = map(vec![
        ("uses", text("actions/setup-node@v4")),
        ("with", map(vec![("node-version", Node::Int(18)), ("check-latest", Node::Bool(true))])),
        ("env", map(vec![("OFFSET", Node::Int(-5))])),
        ("timeout-minutes", Node::Int(7)),
    ]);
    let doc = workflow(vec![(
        "build",
        map(vec![
            ("runs-on", Node::Int(2022)),
            ("env", map(vec![("DEBUG", Node::Bool(false)), ("PORT", Node::Int(8080))])),
            ("container", map(vec![("name", text("pg")), ("ports", list(vec![Node::Int(80), text("443:443")]))])),
            ("steps", list(vec![step])),
        ]),
    )]);
    let w = Workflow::decode(doc, Mode::Strict).unwrap();
    let j = &w.jobs[0].1;
    assert_eq!(j.runs_on, vec!["2022".to_string()]);
    assert_eq!(j.env, vec![("DEBUG".to_string(), "false".to_string()), ("PORT".to_string(), "8080".to_string())]);
    assert_eq!(j.container.as_ref().unwrap().ports, vec!["80".to_string(), "443:443".to_string()]);
    let s = &j.steps[0];
    assert_eq!(s.with, vec![
        ("node-version".to_string(), "18".to_string()),
        ("check-latest".to_string(), "true".to_string()),
    ]);
    assert_eq!(s.env, vec![("OFFSET".to_string(), "-5".to_string())]);
    assert_eq!(s.timeout_minutes, Some(7));
    let extremes = workflow(vec![(
        "build",
        map(vec![("runs-on", text("x")), ("env", map(vec![("LO", Node::Int(i64::MIN)), ("Z", Node::Int(0))]))]),
    )]);
    let w = Workflow::decode(extremes, Mode::Strict).unwrap();
    assert_eq!(w.jobs[0].1.env[0].1, "-9223372036854775808");
    assert_eq!(w.jobs[0].1.env[1].1, "0");
}

#[test]
fn step_error_path_has_its_index() {
    let doc = workflow(vec![(
        "build",
        map(vec![
            ("runs-on", text("x")),
            ("steps", list(vec![map(vec![("run", text("a"))]), map(vec![("run", list(vec![]))])])),
        ]),
    )]);
    let e = Workflow::decode(doc, Mode::Strict).unwrap_err();
    assert_eq!(e.kind, ErrorKind::ShapeMismatch);
    assert_eq!(e.path, vec!["jobs".to_string(), "build".to_string(), "steps".to_string(), "1".to_string()]);
    assert_eq!(e.subject, "run");
}

#[test]
fn service_error_path_has_its_index() {
    let doc = workflow(vec![(
        "build",
        map(vec![("runs-on", text("x")), ("services", list(vec![map(vec![("ports", list(vec![]))])]))]),
    )]);
    let e = Workflow::decode(doc, Mode::Strict).unwrap_err();
    assert_eq!(e.kind, ErrorKind::MissingRequiredField);
    assert_eq!(e.path, vec!["jobs".to_string(), "build".to_string(), "services".to_string(), "0".to_string()]);
}

#[test]
fn second_bad_cron_entry_has_index_one() {
    let doc = map(vec![
        (
            "on",
            map(vec![(
                "schedule",
                list(vec![
                    map(vec![("cron", text("0 0 * * *"))]),
                    map(vec![("cron", text("every day"))]),
                ]),
            )]),
        ),
        ("jobs", map(vec![("build", job(vec![]))])),
    ]);
    let e = Workflow::decode(doc, Mode::Strict).unwrap_err();
    assert_eq!(e.kind, ErrorKind::InvalidValue);
    assert_eq!(e.path, vec!["on".to_string(), "schedule".to_string(), "1".to_string(), "cron".to_string()]);
}
