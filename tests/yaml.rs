use workflow_decode::{ErrorKind, Node, ParseError, Trigger, Workflow};

const SAMPLE: &str = "
name: CI
on:
  push:
    branches: [main]
  pull_request:
env:
  RUST_LOG: debug
jobs:
  lint:
    runs-on: ubuntu-latest
    steps:
      - uses: actions/checkout@v4
      - run: cargo clippy
        timeout-minutes: 10
  test:
    needs: lint
    runs-on: [self-hosted, linux]
    container: rust:1
    strategy:
      matrix:
        version: [1.70, 1.75]
      fail-fast: false
    steps:
      - run: cargo test
";

#[test]
fn parse_str_reads_yaml() {
    let w = Workflow::parse_str(SAMPLE).unwrap();
    assert_eq!(w.name.as_deref(), Some("CI"));
    match &w.on {
        Trigger::Events(v) => {
            assert_eq!(v.len(), 2);
            assert_eq!(v[0].name, "push");
            assert!(v[0].config.is_some());
            assert_eq!(v[1].name, "pull_request");
            assert!(v[1].config.is_none());
        },
        Trigger::Schedule(_) => panic!("expected events"),
    }
    assert_eq!(w.jobs.len(), 2);
    assert_eq!(w.jobs[0].0, "lint");
    assert_eq!(w.jobs[0].1.steps[1].timeout_minutes, Some(10));
    let test = &w.jobs[1].1;
    assert_eq!(test.needs, vec!["lint".to_string()]);
    assert_eq!(test.runs_on, vec!["self-hosted".to_string(), "linux".to_string()]);
    assert_eq!(test.container.as_ref().unwrap().name, "rust:1");
    let strategy = test.strategy.as_ref().unwrap();
    assert_eq!(strategy.fail_fast, Some(false));
    match &strategy.matrix {
        Some(Node::Mapping(es)) => match &es[0].1 {
            Node::Sequence(v) => assert!(matches!(&v[0], Node::Str(s) if s == "1.7")),
            other => panic!("unexpected matrix entry {:?}", other),
        },
        other => panic!("unexpected matrix {:?}", other),
    }
}

#[test]
fn parse_str_schedule() {
    let w = Workflow::parse_str("on:\n  schedule:\n    - cron: '0 0 * * *'\njobs:\n  a:\n    runs-on: x\n").unwrap();
    assert!(matches!(w.on, Trigger::Schedule(_)));
}

#[test]
fn parse_str_errors() {
    assert!(matches!(Workflow::parse_str("on: [push"), Err(ParseError::Yaml(_))));
    assert!(matches!(Workflow::parse_str("on: push\njobs:\n  ~: {runs-on: x}\n"), Err(ParseError::NotATree)));
    match Workflow::parse_str("on: push\njobs:\n  a:\n    runs-on: x\n    needs: ghost\n") {
        Err(ParseError::Decode(e)) => {
            assert_eq!(e.kind, ErrorKind::DanglingReference);
            assert_eq!(e.subject, "ghost");
        },
        other => panic!("unexpected {:?}", other),
    }
    let w = Workflow::parse_str("on: push\ncolour: blue\njobs:\n  a:\n    runs-on: x\n").unwrap();
    assert_eq!(w.jobs.len(), 1);
}

#[test]
fn parse_str_reads_scalars_as_text() {
    let w = Workflow::parse_str(
        "on: push\njobs:\n  1:\n    runs-on: ubuntu-latest\n    env: {PORT: 8080, DEBUG: true}\n    steps:\n      - uses: actions/setup-node@v4\n        with: {node-version: 18}\n",
    )
    .unwrap();
    let (id, j) = &w.jobs[0];
    assert_eq!(id, "1");
    assert_eq!(j.env, vec![("PORT".to_string(), "8080".to_string()), ("DEBUG".to_string(), "true".to_string())]);
    assert_eq!(j.steps[0].with, vec![("node-version".to_string(), "18".to_string())]);
}
