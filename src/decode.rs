use vstd::prelude::*;
use vstd::pervasive::VecAdditionalExecFns;
use crate::text::{nat_string, nat_text};
use crate::cron::{is_cron, valid_cron};
use crate::error::{DecodeError, ErrorKind, Mode};
use crate::fields::{
    bool_field,
    decode_list,
    decode_map,
    decode_one_or_many,
    decode_opt_bool,
    decode_opt_map,
    decode_opt_positive,
    decode_opt_text,
    decode_required_text,
    kind_is,
    list_of,
    map_of,
    map_or_empty,
    one_or_many,
    opt_text_of,
    positive_of,
    required_text,
    texts,
};
use crate::graph::{job_cycle, reports_cycle, reports_missing, acyclic, dependency_order, find_repeat, ids_unique, needs_exist, needs_views};
use crate::ident::{is_job_id, valid_job_id};
use crate::model::{
    cron_views,
    event_views,
    job_entry_views,
    opt_container,
    opt_defaults,
    opt_environment,
    opt_strategy,
    service_views,
    step_views,
    Container,
    ContainerView,
    CronSchedule,
    Defaults,
    DefaultSettings,
    DefaultsView,
    Environment,
    EnvironmentView,
    Event,
    EventView,
    Job,
    JobView,
    Service,
    ServiceView,
    Step,
    StepView,
    Strategy,
    StrategyView,
    Trigger,
    TriggerView,
    Workflow,
    WorkflowView,
};
use crate::node::{is_known, 
    deref,
    field,
    find_duplicate,
    find_unknown,
    get_field,
    has_key,
    has_unknown,
    keys_unique,
    lemma_field_without,
    shape_error,
    take_field,
    Node,
};

verus! {

/// The checks every mapping passes before its fields are read: unique keys,
/// and in strict mode no key outside `names`.
pub open spec fn entries_ok(es: Seq<(String, Node)>, mode: Mode, names: Seq<&str>) -> Result<(), ErrorKind> {
    if !keys_unique(es) {
        Err(ErrorKind::DuplicateKey)
    } else if mode == Mode::Strict && has_unknown(es, names) {
        Err(ErrorKind::UnknownField)
    } else {
        Ok(())
    }
}

/// Checks that keys are unique and, in strict mode, all among `names`.
/// `r` is an `UnknownField` error, at the mapping itself, that names a key
/// of `es` outside `names`.
pub open spec fn reports_unknown<T>(es: Seq<(String, Node)>, names: Seq<&str>, r: Result<T, DecodeError>) -> bool {
    match r {
        Err(e) => e.kind == ErrorKind::UnknownField && e.path@.len() == 0 && has_key(es, e.subject@) && !is_known(
            names,
            e.subject@,
        ),
        Ok(_) => false,
    }
}

pub fn check_entries(es: &Vec<(String, Node)>, mode: Mode, names: &[&str]) -> (r: Result<(), DecodeError>)
    ensures
        match entries_ok(es@, mode, names@) {
            Ok(_) => r is Ok,
            Err(k) => kind_is(r, k),
        },
        entries_ok(es@, mode, names@) == Err::<(), ErrorKind>(ErrorKind::UnknownField) ==> reports_unknown(
            es@,
            names@,
            r,
        ),
{
    match find_duplicate(es) {
        Some(j) => {
            return Err(DecodeError::new(ErrorKind::DuplicateKey, es[j].0.clone()));
        },
        None => {},
    }
    if mode == Mode::Strict {
        match find_unknown(es, names) {
            Some(j) => {
                let e = DecodeError::new(ErrorKind::UnknownField, es[j].0.clone());
                assert(es@[j as int].0@ == e.subject@);
                return Err(e);
            },
            None => {},
        }
    }
    Ok(())
}

pub open spec fn container_keys() -> Seq<&'static str> {
    seq!["name", "credentials", "env", "ports", "volumes", "options"]
}

/// The container that a bare image name denotes: the name, and every other
/// field at its default.
pub open spec fn bare_container(name: Seq<char>) -> ContainerView {
    ContainerView {
        name,
        credentials: None,
        env: None,
        ports: Seq::empty(),
        volumes: Seq::empty(),
        options: Seq::empty(),
    }
}

pub open spec fn container_fields(es: Seq<(String, Node)>, mode: Mode) -> Result<ContainerView, ErrorKind> {
    match entries_ok(es, mode, container_keys()) {
        Err(k) => Err(k),
        Ok(_) => match required_text(field(es, "name"@)) {
            Err(k) => Err(k),
            Ok(name) => match map_of(field(es, "credentials"@)) {
                Err(k) => Err(k),
                Ok(credentials) => match map_of(field(es, "env"@)) {
                    Err(k) => Err(k),
                    Ok(env) => match list_of(field(es, "ports"@)) {
                        Err(k) => Err(k),
                        Ok(ports) => match list_of(field(es, "volumes"@)) {
                            Err(k) => Err(k),
                            Ok(volumes) => match list_of(field(es, "options"@)) {
                                Err(k) => Err(k),
                                Ok(options) => Ok(ContainerView { name, credentials, env, ports, volumes, options }),
                            },
                        },
                    },
                },
            },
        },
    }
}

/// A container is written as a bare image name or as a detailed mapping; the
/// string shape is tried first.
pub open spec fn container_of(n: Node, mode: Mode) -> Result<ContainerView, ErrorKind> {
    match n {
        Node::Str(s) => Ok(bare_container(s@)),
        Node::Mapping(es) => container_fields(es@, mode),
        _ => Err(ErrorKind::ShapeMismatch),
    }
}

impl Container {
    /// The container with image `name` and every other field at its default.
    pub fn from_name(name: String) -> (r: Container)
        ensures
            r@ == bare_container(name@),
    {
        let r = Container {
            name,
            credentials: None,
            env: None,
            ports: Vec::new(),
            volumes: Vec::new(),
            options: Vec::new(),
        };
        assert(texts(r.ports@) =~= Seq::empty());
        assert(texts(r.volumes@) =~= Seq::empty());
        assert(texts(r.options@) =~= Seq::empty());
        r
    }
}

/// The uninhabited error type of `void`: reading a container from an image
/// name cannot fail.
#[verifier::external_type_specification]
#[verifier::external_body]
pub struct ExVoid(void::Void);

impl std::str::FromStr for Container {
    type Err = void::Void;

    /// The container with image `s` and every other field at its default;
    /// reading an image name never fails.
    fn from_str(s: &str) -> (r: Result<Container, void::Void>)
        ensures
            r matches Ok(c) && c@ == bare_container(s@),
    {
        Ok(Container::from_name(s.to_string()))
    }
}

/// Decodes a container.
pub fn decode_container(n: &Node, mode: Mode) -> (r: Result<Container, DecodeError>)
    ensures
        match container_of(*n, mode) {
            Ok(v) => r matches Ok(c) && c@ == v,
            Err(k) => kind_is(r, k),
        },
{
    match n {
        Node::Str(s) => Ok(Container::from_name(s.clone())),
        Node::Mapping(es) => {
            let names: [&str; 6] = ["name", "credentials", "env", "ports", "volumes", "options"];
            assert(names@ =~= container_keys());
            check_entries(es, mode, &names)?;
            let name = decode_required_text(get_field(es, "name"), "name")?;
            let credentials = decode_opt_map(get_field(es, "credentials"), "credentials")?;
            let env = decode_opt_map(get_field(es, "env"), "env")?;
            let ports = decode_list(get_field(es, "ports"), "ports")?;
            let volumes = decode_list(get_field(es, "volumes"), "volumes")?;
            let options = decode_list(get_field(es, "options"), "options")?;
            Ok(Container { name, credentials, env, ports, volumes, options })
        },
        _ => Err(shape_error("container")),
    }
}

pub open spec fn environment_keys() -> Seq<&'static str> {
    seq!["name", "url"]
}

pub open spec fn environment_of(n: Node, mode: Mode) -> Result<EnvironmentView, ErrorKind> {
    match n {
        Node::Mapping(es) => match entries_ok(es@, mode, environment_keys()) {
            Err(k) => Err(k),
            Ok(_) => match required_text(field(es@, "name"@)) {
                Err(k) => Err(k),
                Ok(name) => match opt_text_of(field(es@, "url"@)) {
                    Err(k) => Err(k),
                    Ok(url) => Ok(EnvironmentView { name, url }),
                },
            },
        },
        _ => Err(ErrorKind::ShapeMismatch),
    }
}

/// Decodes the environment of a job.
pub fn decode_environment(n: &Node, mode: Mode) -> (r: Result<Environment, DecodeError>)
    ensures
        match environment_of(*n, mode) {
            Ok(v) => r matches Ok(c) && c@ == v,
            Err(k) => kind_is(r, k),
        },
{
    match n {
        Node::Mapping(es) => {
            let names: [&str; 2] = ["name", "url"];
            assert(names@ =~= environment_keys());
            check_entries(es, mode, &names)?;
            let name = decode_required_text(get_field(es, "name"), "name")?;
            let url = decode_opt_text(get_field(es, "url"), "url")?;
            Ok(Environment { name, url })
        },
        _ => Err(shape_error("environment")),
    }
}

pub open spec fn run_keys() -> Seq<&'static str> {
    seq!["shell", "working-directory"]
}

pub open spec fn defaults_keys() -> Seq<&'static str> {
    seq!["run"]
}

pub open spec fn run_settings_of(n: Option<Node>, mode: Mode) -> Result<DefaultsView, ErrorKind> {
    match n {
        None => Err(ErrorKind::MissingRequiredField),
        Some(Node::Mapping(es)) => match entries_ok(es@, mode, run_keys()) {
            Err(k) => Err(k),
            Ok(_) => match opt_text_of(field(es@, "shell"@)) {
                Err(k) => Err(k),
                Ok(shell) => match opt_text_of(field(es@, "working-directory"@)) {
                    Err(k) => Err(k),
                    Ok(working_directory) => Ok(DefaultsView { shell, working_directory }),
                },
            },
        },
        _ => Err(ErrorKind::ShapeMismatch),
    }
}

pub open spec fn defaults_of(n: Node, mode: Mode) -> Result<DefaultsView, ErrorKind> {
    match n {
        Node::Mapping(es) => match entries_ok(es@, mode, defaults_keys()) {
            Err(k) => Err(k),
            Ok(_) => run_settings_of(field(es@, "run"@), mode),
        },
        _ => Err(ErrorKind::ShapeMismatch),
    }
}

/// Decodes default settings for run steps.
pub fn decode_defaults(n: &Node, mode: Mode) -> (r: Result<Defaults, DecodeError>)
    ensures
        match defaults_of(*n, mode) {
            Ok(v) => r matches Ok(c) && c@ == v,
            Err(k) => kind_is(r, k),
        },
{
    match n {
        Node::Mapping(es) => {
            let names: [&str; 1] = ["run"];
            assert(names@ =~= defaults_keys());
            check_entries(es, mode, &names)?;
            match get_field(es, "run") {
                None => Err(DecodeError::new(ErrorKind::MissingRequiredField, "run".to_string())),
                Some(Node::Mapping(rs)) => {
                    let names: [&str; 2] = ["shell", "working-directory"];
                    assert(names@ =~= run_keys());
                    check_entries(rs, mode, &names)?;
                    let shell = decode_opt_text(get_field(rs, "shell"), "shell")?;
                    let working_directory = decode_opt_text(
                        get_field(rs, "working-directory"),
                        "working-directory",
                    )?;
                    Ok(Defaults { run: DefaultSettings { shell, working_directory } })
                },
                Some(_) => Err(shape_error("run")),
            }
        },
        _ => Err(shape_error("defaults")),
    }
}

pub open spec fn service_keys() -> Seq<&'static str> {
    seq!["name", "ports"]
}

pub open spec fn service_of(n: Node, mode: Mode) -> Result<ServiceView, ErrorKind> {
    match n {
        Node::Mapping(es) => match entries_ok(es@, mode, service_keys()) {
            Err(k) => Err(k),
            Ok(_) => match required_text(field(es@, "name"@)) {
                Err(k) => Err(k),
                Ok(name) => match list_of(field(es@, "ports"@)) {
                    Err(k) => Err(k),
                    Ok(ports) => Ok(ServiceView { name, ports }),
                },
            },
        },
        _ => Err(ErrorKind::ShapeMismatch),
    }
}

/// Decodes a service container.
pub fn decode_service(n: &Node, mode: Mode) -> (r: Result<Service, DecodeError>)
    ensures
        match service_of(*n, mode) {
            Ok(v) => r matches Ok(c) && c@ == v,
            Err(k) => kind_is(r, k),
        },
{
    match n {
        Node::Mapping(es) => {
            let names: [&str; 2] = ["name", "ports"];
            assert(names@ =~= service_keys());
            check_entries(es, mode, &names)?;
            let name = decode_required_text(get_field(es, "name"), "name")?;
            let ports = decode_list(get_field(es, "ports"), "ports")?;
            Ok(Service { name, ports })
        },
        _ => Err(shape_error("service")),
    }
}

pub open spec fn schedule_entry_keys() -> Seq<&'static str> {
    seq!["cron"]
}

/// A schedule entry: a mapping whose `cron` is a valid cron expression.
pub open spec fn cron_entry_of(n: Node, mode: Mode) -> Result<Seq<char>, ErrorKind> {
    match n {
        Node::Mapping(es) => match entries_ok(es@, mode, schedule_entry_keys()) {
            Err(k) => Err(k),
            Ok(_) => match required_text(field(es@, "cron"@)) {
                Err(k) => Err(k),
                Ok(c) => if is_cron(c) {
                    Ok(c)
                } else {
                    Err(ErrorKind::InvalidValue)
                },
            },
        },
        _ => Err(ErrorKind::ShapeMismatch),
    }
}

impl CronSchedule {
    /// A schedule entry for the cron expression `cron`, if it is valid.
    pub fn new(cron: String) -> (r: Result<CronSchedule, DecodeError>)
        ensures
            is_cron(cron@) ==> (r matches Ok(c) && c@ == cron@),
            !is_cron(cron@) ==> kind_is(r, ErrorKind::InvalidValue),
            invalid_at(r, Seq::empty()),
    {
        if valid_cron(cron.as_str()) {
            Ok(CronSchedule { cron })
        } else {
            let e = DecodeError::new(ErrorKind::InvalidValue, cron);
            assert(texts(e.path@) =~= Seq::empty());
            Err(e)
        }
    }
}

/// Decodes one entry of a schedule.
pub fn decode_cron_entry(n: &Node, mode: Mode) -> (r: Result<CronSchedule, DecodeError>)
    ensures
        match cron_entry_of(*n, mode) {
            Ok(v) => r matches Ok(c) && c@ == v,
            Err(k) => kind_is(r, k),
        },
        invalid_at(r, seq!["cron"@]),
{
    match n {
        Node::Mapping(es) => {
            let names: [&str; 1] = ["cron"];
            assert(names@ =~= schedule_entry_keys());
            check_entries(es, mode, &names)?;
            let c = decode_required_text(get_field(es, "cron"), "cron")?;
            match CronSchedule::new(c) {
                Ok(x) => Ok(x),
                Err(e) => {
                    let e = e.within("cron");
                    proof {
                        if e.kind == ErrorKind::InvalidValue {
                            assert(texts(e.path@) =~= seq!["cron"@]);
                        }
                    }
                    Err(e)
                },
            }
        },
        _ => Err(shape_error("schedule")),
    }
}

pub open spec fn strategy_keys() -> Seq<&'static str> {
    seq!["matrix", "fail-fast", "max-parallel"]
}

/// The matrix is kept as given; null counts as absent.
pub open spec fn payload_of(n: Option<Node>) -> Option<Node> {
    match n {
        Some(Node::Null) => None,
        _ => n,
    }
}

pub open spec fn strategy_of(n: Node, mode: Mode) -> Result<StrategyView, ErrorKind> {
    match n {
        Node::Mapping(es) => match entries_ok(es@, mode, strategy_keys()) {
            Err(k) => Err(k),
            Ok(_) => match bool_field(field(es@, "fail-fast"@)) {
                Err(k) => Err(k),
                Ok(fail_fast) => match positive_of(field(es@, "max-parallel"@)) {
                    Err(k) => Err(k),
                    Ok(max_parallel) => Ok(
                        StrategyView { matrix: payload_of(field(es@, "matrix"@)), fail_fast, max_parallel },
                    ),
                },
            },
        },
        _ => Err(ErrorKind::ShapeMismatch),
    }
}

/// Decodes a job strategy; the matrix is carried through uninterpreted.
pub fn decode_strategy(n: Node, mode: Mode) -> (r: Result<Strategy, DecodeError>)
    ensures
        match strategy_of(n, mode) {
            Ok(v) => r matches Ok(c) && c@ == v,
            Err(k) => kind_is(r, k),
        },
{
    match n {
        Node::Mapping(es) => {
            let ghost orig = es@;
            let names: [&str; 3] = ["matrix", "fail-fast", "max-parallel"];
            assert(names@ =~= strategy_keys());
            check_entries(&es, mode, &names)?;
            let fail_fast = decode_opt_bool(get_field(&es, "fail-fast"), "fail-fast")?;
            let max_parallel = decode_opt_positive(get_field(&es, "max-parallel"), "max-parallel")?;
            let mut es = es;
            let matrix = match take_field(&mut es, "matrix") {
                Some(Node::Null) => None,
                other => other,
            };
            Ok(Strategy { matrix, fail_fast, max_parallel })
        },
        _ => Err(shape_error("strategy")),
    }
}

pub open spec fn step_keys() -> Seq<&'static str> {
    seq!["name", "id", "if", "uses", "run", "with", "env", "continue-on-error", "timeout-minutes"]
}

pub open spec fn step_of(n: Node, mode: Mode) -> Result<StepView, ErrorKind> {
    match n {
        Node::Mapping(es) => match entries_ok(es@, mode, step_keys()) {
            Err(k) => Err(k),
            Ok(_) => match opt_text_of(field(es@, "name"@)) {
                Err(k) => Err(k),
                Ok(name) => match opt_text_of(field(es@, "id"@)) {
                    Err(k) => Err(k),
                    Ok(id) => match opt_text_of(field(es@, "if"@)) {
                        Err(k) => Err(k),
                        Ok(run_if) => match opt_text_of(field(es@, "uses"@)) {
                            Err(k) => Err(k),
                            Ok(uses) => match opt_text_of(field(es@, "run"@)) {
                                Err(k) => Err(k),
                                Ok(run) => match map_or_empty(field(es@, "with"@)) {
                                    Err(k) => Err(k),
                                    Ok(with) => match map_or_empty(field(es@, "env"@)) {
                                        Err(k) => Err(k),
                                        Ok(env) => match bool_field(field(es@, "continue-on-error"@)) {
                                            Err(k) => Err(k),
                                            Ok(continue_on_error) => match positive_of(
                                                field(es@, "timeout-minutes"@),
                                            ) {
                                                Err(k) => Err(k),
                                                Ok(timeout_minutes) => Ok(
                                                    StepView {
                                                        name,
                                                        id,
                                                        run_if,
                                                        uses,
                                                        run,
                                                        with,
                                                        env,
                                                        continue_on_error,
                                                        timeout_minutes,
                                                    },
                                                ),
                                            },
                                        },
                                    },
                                },
                            },
                        },
                    },
                },
            },
        },
        _ => Err(ErrorKind::ShapeMismatch),
    }
}

/// Decodes one step of a job.
pub fn decode_step(n: &Node, mode: Mode) -> (r: Result<Step, DecodeError>)
    ensures
        match step_of(*n, mode) {
            Ok(v) => r matches Ok(c) && c@ == v,
            Err(k) => kind_is(r, k),
        },
{
    match n {
        Node::Mapping(es) => {
            let names: [&str; 9] = [
                "name",
                "id",
                "if",
                "uses",
                "run",
                "with",
                "env",
                "continue-on-error",
                "timeout-minutes",
            ];
            assert(names@ =~= step_keys());
            check_entries(es, mode, &names)?;
            let name = decode_opt_text(get_field(es, "name"), "name")?;
            let id = decode_opt_text(get_field(es, "id"), "id")?;
            let run_if = decode_opt_text(get_field(es, "if"), "if")?;
            let uses = decode_opt_text(get_field(es, "uses"), "uses")?;
            let run = decode_opt_text(get_field(es, "run"), "run")?;
            let with = decode_map(get_field(es, "with"), "with")?;
            let env = decode_map(get_field(es, "env"), "env")?;
            let continue_on_error = decode_opt_bool(
                get_field(es, "continue-on-error"),
                "continue-on-error",
            )?;
            let timeout_minutes = decode_opt_positive(get_field(es, "timeout-minutes"), "timeout-minutes")?;
            Ok(Step { name, id, run_if, uses, run, with, env, continue_on_error, timeout_minutes })
        },
        _ => Err(shape_error("step")),
    }
}

/// An event: a bare name, or a mapping of one name to its configuration.
pub open spec fn event_of(n: Node) -> Result<EventView, ErrorKind> {
    match n {
        Node::Str(s) => Ok(EventView { name: s@, config: None }),
        Node::Mapping(es) => if es@.len() == 1 {
            Ok(EventView { name: es@[0].0@, config: payload_of(Some(es@[0].1)) })
        } else {
            Err(ErrorKind::ShapeMismatch)
        },
        _ => Err(ErrorKind::ShapeMismatch),
    }
}

/// The events of a sequence, or the error of its first bad item.
pub open spec fn event_list_of(ns: Seq<Node>) -> Result<Seq<EventView>, ErrorKind>
    decreases ns.len(),
{
    if ns.len() == 0 {
        Ok(Seq::empty())
    } else {
        match event_list_of(ns.drop_last()) {
            Err(k) => Err(k),
            Ok(t) => match event_of(ns.last()) {
                Err(k) => Err(k),
                Ok(e) => Ok(t.push(e)),
            },
        }
    }
}

/// The events of a mapping from event names to configurations.
pub open spec fn event_map_of(es: Seq<(String, Node)>) -> Seq<EventView> {
    es.map_values(|e: (String, Node)| EventView { name: e.0@, config: payload_of(Some(e.1)) })
}

/// The entries of a schedule, or the error of its first bad entry.
pub open spec fn schedule_of(ns: Seq<Node>, mode: Mode) -> Result<Seq<Seq<char>>, ErrorKind>
    decreases ns.len(),
{
    if ns.len() == 0 {
        Ok(Seq::empty())
    } else {
        match schedule_of(ns.drop_last(), mode) {
            Err(k) => Err(k),
            Ok(t) => match cron_entry_of(ns.last(), mode) {
                Err(k) => Err(k),
                Ok(c) => Ok(t.push(c)),
            },
        }
    }
}

/// What triggers a workflow. A mapping with a `schedule` key is a schedule,
/// never an event named "schedule"; it must then hold no other key. Any
/// other mapping, a name or a sequence is a set of events.
pub open spec fn trigger_of(n: Node, mode: Mode) -> Result<TriggerView, ErrorKind> {
    match n {
        Node::Mapping(es) => if !keys_unique(es@) {
            Err(ErrorKind::DuplicateKey)
        } else if has_key(es@, "schedule"@) {
            if es@.len() == 1 {
                match es@[0].1 {
                    Node::Sequence(v) => match schedule_of(v@, mode) {
                        Ok(t) => Ok(TriggerView::Schedule(t)),
                        Err(k) => Err(k),
                    },
                    _ => Err(ErrorKind::ShapeMismatch),
                }
            } else {
                Err(ErrorKind::ShapeMismatch)
            }
        } else {
            Ok(TriggerView::Events(event_map_of(es@)))
        },
        Node::Str(s) => Ok(TriggerView::Events(seq![EventView { name: s@, config: None }])),
        Node::Sequence(v) => match event_list_of(v@) {
            Ok(t) => Ok(TriggerView::Events(t)),
            Err(k) => Err(k),
        },
        _ => Err(ErrorKind::ShapeMismatch),
    }
}

/// Decodes one event of a sequence of events.
pub fn decode_event(n: Node) -> (r: Result<Event, DecodeError>)
    ensures
        match event_of(n) {
            Ok(v) => r matches Ok(e) && e@ == v,
            Err(k) => kind_is(r, k),
        },
        r is Err ==> kind_is(r, ErrorKind::ShapeMismatch),
{
    match n {
        Node::Str(s) => Ok(Event { name: s, config: None }),
        Node::Mapping(es) => {
            if es.len() == 1 {
                let mut es = es;
                let (name, config) = es.remove(0);
                let config = match config {
                    Node::Null => None,
                    other => Some(other),
                };
                Ok(Event { name, config })
            } else {
                Err(shape_error("on"))
            }
        },
        _ => Err(shape_error("on")),
    }
}

proof fn lemma_event_list_prefix(s: Seq<Node>, k: int, e: ErrorKind)
    requires
        0 <= k <= s.len(),
        event_list_of(s.subrange(0, k)) == Err::<Seq<EventView>, ErrorKind>(e),
    ensures
        event_list_of(s) == Err::<Seq<EventView>, ErrorKind>(e),
    decreases s.len() - k,
{
    if k < s.len() {
        assert(s.subrange(0, k + 1).drop_last() == s.subrange(0, k));
        lemma_event_list_prefix(s, k + 1, e);
    } else {
        assert(s.subrange(0, k) == s);
    }
}

/// Decodes a sequence of events.
pub fn decode_event_list(v: Vec<Node>) -> (r: Result<Vec<Event>, DecodeError>)
    ensures
        match event_list_of(v@) {
            Ok(t) => r matches Ok(o) && event_views(o@) == t,
            Err(k) => kind_is(r, k),
        },
        r is Err ==> kind_is(r, ErrorKind::ShapeMismatch),
{
    let ghost orig = v@;
    let mut items = v;
    let mut out: Vec<Event> = Vec::new();
    let mut i: usize = 0;
    assert(orig.subrange(0, 0) =~= Seq::empty());
    assert(event_views(out@) =~= Seq::empty());
    while i < items.len()
        invariant
            orig == v@,
            items@.len() == orig.len(),
            i <= orig.len(),
            forall|j: int| i <= j < orig.len() ==> items@[j] == orig[j],
            event_list_of(orig.subrange(0, i as int)) == Ok::<Seq<EventView>, ErrorKind>(event_views(out@)),
        decreases orig.len() - i,
    {
        let mut item = Node::Null;
        items.set_and_swap(i, &mut item);
        let ghost next = orig.subrange(0, i + 1);
        assert(next.drop_last() == orig.subrange(0, i as int));
        assert(next.last() == item);
        match decode_event(item) {
            Ok(e) => {
                let ghost before = out@;
                out.push(e);
                assert(event_views(out@) =~= event_views(before).push(out@.last()@));
            },
            Err(err) => {
                proof { lemma_event_list_prefix(orig, i as int + 1, err.kind); }
                return Err(err);
            },
        }
        i = i + 1;
    }
    assert(orig.subrange(0, orig.len() as int) == orig);
    Ok(out)
}

/// Decodes a mapping from event names to configurations.
pub fn decode_event_map(es: Vec<(String, Node)>) -> (r: Vec<Event>)
    ensures
        event_views(r@) == event_map_of(es@),
{
    let ghost orig = es@;
    let mut es = es;
    let mut out: Vec<Event> = Vec::new();
    let mut i: usize = 0;
    while i < es.len()
        invariant
            es@.len() == orig.len(),
            i <= orig.len(),
            forall|j: int| i <= j < orig.len() ==> es@[j] == orig[j],
            out@.len() == i,
            forall|j: int| 0 <= j < i ==> (#[trigger] out@[j])@ == event_map_of(orig)[j],
        decreases orig.len() - i,
    {
        let mut item = (String::new(), Node::Null);
        es.set_and_swap(i, &mut item);
        let (name, config) = item;
        let config = match config {
            Node::Null => None,
            other => Some(other),
        };
        out.push(Event { name, config });
        i = i + 1;
    }
    assert(event_views(out@) =~= event_map_of(orig));
    out
}

proof fn lemma_schedule_prefix(s: Seq<Node>, mode: Mode, k: int, e: ErrorKind)
    requires
        0 <= k <= s.len(),
        schedule_of(s.subrange(0, k), mode) == Err::<Seq<Seq<char>>, ErrorKind>(e),
    ensures
        schedule_of(s, mode) == Err::<Seq<Seq<char>>, ErrorKind>(e),
    decreases s.len() - k,
{
    if k < s.len() {
        assert(s.subrange(0, k + 1).drop_last() == s.subrange(0, k));
        lemma_schedule_prefix(s, mode, k + 1, e);
    } else {
        assert(s.subrange(0, k) == s);
    }
}

/// An `InvalidValue` error, if `r` is one, has the path `p`.
pub open spec fn invalid_at<T>(r: Result<T, DecodeError>, p: Seq<Seq<char>>) -> bool {
    match r {
        Err(e) => e.kind == ErrorKind::InvalidValue ==> texts(e.path@) == p,
        Ok(_) => true,
    }
}

/// An `InvalidValue` error, if `r` is one, lies at a cron expression of a
/// schedule.
pub open spec fn invalid_in_schedule<T>(r: Result<T, DecodeError>, ns: Seq<Node>, mode: Mode) -> bool {
    match r {
        Err(e) => e.kind == ErrorKind::InvalidValue ==> schedule_path(e.path@, ns, mode),
        Ok(_) => true,
    }
}

/// Entry `i` is the first entry of the schedule `ns` that does not decode.
pub open spec fn first_bad_entry(ns: Seq<Node>, mode: Mode, i: int) -> bool {
    &&& 0 <= i < ns.len()
    &&& cron_entry_of(ns[i], mode) is Err
    &&& forall|j: int| 0 <= j < i ==> cron_entry_of(#[trigger] ns[j], mode) is Ok
}

/// The path of a bad cron expression within a trigger: the `schedule` key,
/// the index of the first bad entry in decimal, then the entry's `cron` key.
pub open spec fn schedule_path(p: Seq<String>, ns: Seq<Node>, mode: Mode) -> bool {
    &&& p.len() == 3
    &&& p[0]@ == "schedule"@
    &&& p[2]@ == "cron"@
    &&& exists|i: int| #[trigger] first_bad_entry(ns, mode, i) && p[1]@ == nat_text(i as nat)
}

/// The entries of a trigger that is a schedule.
pub open spec fn schedule_entries(n: Node) -> Seq<Node> {
    match n {
        Node::Mapping(es) => if es@.len() == 1 {
            match es@[0].1 {
                Node::Sequence(v) => v@,
                _ => Seq::empty(),
            }
        } else {
            Seq::empty()
        },
        _ => Seq::empty(),
    }
}

/// Decodes the entries of a schedule.
pub fn decode_schedule(v: &Vec<Node>, mode: Mode) -> (r: Result<Vec<CronSchedule>, DecodeError>)
    ensures
        match schedule_of(v@, mode) {
            Ok(t) => r matches Ok(o) && cron_views(o@) == t,
            Err(k) => kind_is(r, k),
        },
        invalid_in_schedule(r, v@, mode),
{
    let mut out: Vec<CronSchedule> = Vec::new();
    let mut i: usize = 0;
    assert(v@.subrange(0, 0) =~= Seq::empty());
    assert(cron_views(out@) =~= Seq::empty());
    while i < v.len()
        invariant
            i <= v@.len(),
            schedule_of(v@.subrange(0, i as int), mode) == Ok::<Seq<Seq<char>>, ErrorKind>(cron_views(out@)),
            forall|j: int| 0 <= j < i ==> cron_entry_of(#[trigger] v@[j], mode) is Ok,
        decreases v@.len() - i,
    {
        let ghost next = v@.subrange(0, i + 1);
        assert(next.drop_last() == v@.subrange(0, i as int));
        assert(next.last() == v@[i as int]);
        match decode_cron_entry(&v[i], mode) {
            Ok(c) => {
                let ghost before = out@;
                out.push(c);
                assert(cron_views(out@) =~= cron_views(before).push(out@.last()@));
            },
            Err(err) => {
                let ghost old_path = err.path@;
                proof { lemma_schedule_prefix(v@, mode, i as int + 1, err.kind); }
                let seg = nat_string(i as u64);
                let inner = err.within(seg.as_str());
                let err = inner.within("schedule");
                proof {
                    if err.kind == ErrorKind::InvalidValue {
                        assert(texts(old_path) == seq!["cron"@]);
                        assert(texts(old_path).len() == old_path.len());
                        assert(old_path.len() == 1);
                        assert(texts(old_path)[0] == old_path[0]@);
                        assert(inner.path@[1] == old_path[0]);
                        assert(err.path@[2] == inner.path@[1]);
                        assert(first_bad_entry(v@, mode, i as int));
                        assert(err.path@[1]@ == nat_text(i as nat));
                    }
                }
                return Err(err);
            },
        }
        i = i + 1;
    }
    assert(v@.subrange(0, v@.len() as int) == v@);
    Ok(out)
}

/// Resolves what triggers a workflow.
pub fn decode_trigger(n: Node, mode: Mode) -> (r: Result<Trigger, DecodeError>)
    ensures
        match trigger_of(n, mode) {
            Ok(v) => r matches Ok(t) && t@ == v,
            Err(k) => kind_is(r, k),
        },
        invalid_in_schedule(r, schedule_entries(n), mode),
{
    match n {
        Node::Mapping(es) => {
            match find_duplicate(&es) {
                Some(j) => {
                    return Err(DecodeError::new(ErrorKind::DuplicateKey, es[j].0.clone()));
                },
                None => {},
            }
            match get_field(&es, "schedule") {
                Some(s) => {
                    if es.len() != 1 {
                        return Err(shape_error("on"));
                    }
                    proof {
                        let c = choose|c: int| 0 <= c < es@.len() && (#[trigger] es@[c]).0@ == "schedule"@;
                        assert(c == 0);
                    }
                    match s {
                        Node::Sequence(v) => {
                            let entries = decode_schedule(v, mode)?;
                            Ok(Trigger::Schedule(entries))
                        },
                        _ => Err(shape_error("schedule")),
                    }
                },
                None => Ok(Trigger::Events(decode_event_map(es))),
            }
        },
        Node::Str(s) => {
            let mut v: Vec<Event> = Vec::new();
            v.push(Event { name: s, config: None });
            assert(event_views(v@) =~= seq![EventView { name: s@, config: None }]);
            Ok(Trigger::Events(v))
        },
        Node::Sequence(v) => Ok(Trigger::Events(decode_event_list(v)?)),
        _ => Err(shape_error("on")),
    }
}

/// The ids a job needs: one id or a sequence of them, each well-formed and
/// none repeated.
pub open spec fn needs_of(n: Option<Node>) -> Result<Seq<Seq<char>>, ErrorKind> {
    match n {
        None => Ok(Seq::empty()),
        Some(Node::Null) => Ok(Seq::empty()),
        Some(x) => match one_or_many(x) {
            None => Err(ErrorKind::ShapeMismatch),
            Some(t) => if exists|i: int| 0 <= i < t.len() && !is_job_id(#[trigger] t[i]) {
                Err(ErrorKind::InvalidValue)
            } else if !ids_unique(t) {
                Err(ErrorKind::DuplicateKey)
            } else {
                Ok(t)
            },
        },
    }
}

/// The runner labels of a job: one label or a non-empty sequence of them.
pub open spec fn runs_on_of(n: Option<Node>) -> Result<Seq<Seq<char>>, ErrorKind> {
    match n {
        None => Err(ErrorKind::MissingRequiredField),
        Some(Node::Null) => Err(ErrorKind::MissingRequiredField),
        Some(x) => match one_or_many(x) {
            None => Err(ErrorKind::ShapeMismatch),
            Some(t) => if t.len() == 0 {
                Err(ErrorKind::InvalidValue)
            } else {
                Ok(t)
            },
        },
    }
}

/// Decodes the ids that a job needs.
pub fn decode_needs(n: Option<&Node>) -> (r: Result<Vec<String>, DecodeError>)
    ensures
        match needs_of(deref(n)) {
            Ok(t) => r matches Ok(o) && texts(o@) == t,
            Err(k) => kind_is(r, k),
        },
{
    let v = match n {
        None => {
            let out: Vec<String> = Vec::new();
            assert(texts(out@) =~= Seq::empty());
            return Ok(out);
        },
        Some(Node::Null) => {
            let out: Vec<String> = Vec::new();
            assert(texts(out@) =~= Seq::empty());
            return Ok(out);
        },
        Some(x) => decode_one_or_many(x, "needs")?,
    };
    let mut i: usize = 0;
    while i < v.len()
        invariant
            i <= v@.len(),
            forall|j: int| 0 <= j < i ==> is_job_id(#[trigger] texts(v@)[j]),
            deref(n) matches Some(x) && !(x is Null) && one_or_many(x) == Some(texts(v@)),
        decreases v@.len() - i,
    {
        if !valid_job_id(v[i].as_str()) {
            assert(!is_job_id(texts(v@)[i as int]));
            return Err(DecodeError::new(ErrorKind::InvalidValue, v[i].clone()));
        }
        i = i + 1;
    }
    match find_repeat(&v) {
        Some(j) => Err(DecodeError::new(ErrorKind::DuplicateKey, v[j].clone())),
        None => Ok(v),
    }
}

/// Decodes the runner labels of a job.
pub fn decode_runs_on(n: Option<&Node>) -> (r: Result<Vec<String>, DecodeError>)
    ensures
        match runs_on_of(deref(n)) {
            Ok(t) => r matches Ok(o) && texts(o@) == t,
            Err(k) => kind_is(r, k),
        },
{
    match n {
        None => Err(DecodeError::new(ErrorKind::MissingRequiredField, "runs-on".to_string())),
        Some(Node::Null) => Err(DecodeError::new(ErrorKind::MissingRequiredField, "runs-on".to_string())),
        Some(x) => {
            let v = decode_one_or_many(x, "runs-on")?;
            if v.len() == 0 {
                Err(DecodeError::new(ErrorKind::InvalidValue, "runs-on".to_string()))
            } else {
                Ok(v)
            }
        },
    }
}

/// The steps of a sequence, or the error of its first bad step.
pub open spec fn steps_of(ns: Seq<Node>, mode: Mode) -> Result<Seq<StepView>, ErrorKind>
    decreases ns.len(),
{
    if ns.len() == 0 {
        Ok(Seq::empty())
    } else {
        match steps_of(ns.drop_last(), mode) {
            Err(k) => Err(k),
            Ok(t) => match step_of(ns.last(), mode) {
                Err(k) => Err(k),
                Ok(x) => Ok(t.push(x)),
            },
        }
    }
}

/// The services of a sequence, or the error of its first bad service.
pub open spec fn services_of(ns: Seq<Node>, mode: Mode) -> Result<Seq<ServiceView>, ErrorKind>
    decreases ns.len(),
{
    if ns.len() == 0 {
        Ok(Seq::empty())
    } else {
        match services_of(ns.drop_last(), mode) {
            Err(k) => Err(k),
            Ok(t) => match service_of(ns.last(), mode) {
                Err(k) => Err(k),
                Ok(x) => Ok(t.push(x)),
            },
        }
    }
}

pub open spec fn steps_field(n: Option<Node>, mode: Mode) -> Result<Seq<StepView>, ErrorKind> {
    match n {
        None => Ok(Seq::empty()),
        Some(Node::Null) => Ok(Seq::empty()),
        Some(Node::Sequence(v)) => steps_of(v@, mode),
        _ => Err(ErrorKind::ShapeMismatch),
    }
}

pub open spec fn services_field(n: Option<Node>, mode: Mode) -> Result<Seq<ServiceView>, ErrorKind> {
    match n {
        None => Ok(Seq::empty()),
        Some(Node::Null) => Ok(Seq::empty()),
        Some(Node::Sequence(v)) => services_of(v@, mode),
        _ => Err(ErrorKind::ShapeMismatch),
    }
}

proof fn lemma_steps_prefix(s: Seq<Node>, mode: Mode, k: int, e: ErrorKind)
    requires
        0 <= k <= s.len(),
        steps_of(s.subrange(0, k), mode) == Err::<Seq<StepView>, ErrorKind>(e),
    ensures
        steps_of(s, mode) == Err::<Seq<StepView>, ErrorKind>(e),
    decreases s.len() - k,
{
    if k < s.len() {
        assert(s.subrange(0, k + 1).drop_last() == s.subrange(0, k));
        lemma_steps_prefix(s, mode, k + 1, e);
    } else {
        assert(s.subrange(0, k) == s);
    }
}

proof fn lemma_services_prefix(s: Seq<Node>, mode: Mode, k: int, e: ErrorKind)
    requires
        0 <= k <= s.len(),
        services_of(s.subrange(0, k), mode) == Err::<Seq<ServiceView>, ErrorKind>(e),
    ensures
        services_of(s, mode) == Err::<Seq<ServiceView>, ErrorKind>(e),
    decreases s.len() - k,
{
    if k < s.len() {
        assert(s.subrange(0, k + 1).drop_last() == s.subrange(0, k));
        lemma_services_prefix(s, mode, k + 1, e);
    } else {
        assert(s.subrange(0, k) == s);
    }
}

/// Decodes the steps of a job.
/// Item `i` is the first of `ns` that does not decode as a step.
pub open spec fn first_bad_step(ns: Seq<Node>, mode: Mode, i: int) -> bool {
    &&& 0 <= i < ns.len()
    &&& step_of(ns[i], mode) is Err
    &&& forall|j: int| 0 <= j < i ==> step_of(#[trigger] ns[j], mode) is Ok
}

/// An error, if `r` is one, has a path that starts with the index, in
/// decimal, of the first item of `ns` that does not decode as a step.
pub open spec fn error_at_first_bad_step<T>(r: Result<T, DecodeError>, ns: Seq<Node>, mode: Mode) -> bool {
    match r {
        Err(e) => texts(e.path@).len() > 0 && exists|i: int|
            #[trigger] first_bad_step(ns, mode, i) && texts(e.path@)[0] == nat_text(i as nat),
        Ok(_) => true,
    }
}

pub fn decode_steps(n: Option<&Node>, mode: Mode) -> (r: Result<Vec<Step>, DecodeError>)
    ensures
        match steps_field(deref(n), mode) {
            Ok(t) => r matches Ok(o) && step_views(o@) == t,
            Err(k) => kind_is(r, k),
        },
        match deref(n) {
            Some(Node::Sequence(v)) => error_at_first_bad_step(r, v@, mode),
            _ => true,
        },
{
    let v = match n {
        None => {
            let out: Vec<Step> = Vec::new();
            assert(step_views(out@) =~= Seq::empty());
            return Ok(out);
        },
        Some(Node::Null) => {
            let out: Vec<Step> = Vec::new();
            assert(step_views(out@) =~= Seq::empty());
            return Ok(out);
        },
        Some(Node::Sequence(v)) => v,
        Some(_) => {
            return Err(shape_error("steps"));
        },
    };
    let mut out: Vec<Step> = Vec::new();
    let mut i: usize = 0;
    assert(v@.subrange(0, 0) =~= Seq::empty());
    assert(step_views(out@) =~= Seq::empty());
    while i < v.len()
        invariant
            i <= v@.len(),
            deref(n) == Some(Node::Sequence(*v)),
            steps_of(v@.subrange(0, i as int), mode) == Ok::<Seq<StepView>, ErrorKind>(step_views(out@)),
            forall|j: int| 0 <= j < i ==> step_of(#[trigger] v@[j], mode) is Ok,
        decreases v@.len() - i,
    {
        let ghost next = v@.subrange(0, i + 1);
        assert(next.drop_last() == v@.subrange(0, i as int));
        assert(next.last() == v@[i as int]);
        match decode_step(&v[i], mode) {
            Ok(x) => {
                let ghost before = out@;
                out.push(x);
                assert(step_views(out@) =~= step_views(before).push(out@.last()@));
            },
            Err(err) => {
                proof { lemma_steps_prefix(v@, mode, i as int + 1, err.kind); }
                let err = err.within(nat_string(i as u64).as_str());
                proof {
                    assert(texts(err.path@).len() == err.path@.len());
                    assert(texts(err.path@)[0] == err.path@[0]@);
                    assert(first_bad_step(v@, mode, i as int));
                }
                return Err(err);
            },
        }
        i = i + 1;
    }
    assert(v@.subrange(0, v@.len() as int) == v@);
    Ok(out)
}

/// Decodes the service containers of a job.
/// Item `i` is the first of `ns` that does not decode as a service.
pub open spec fn first_bad_service(ns: Seq<Node>, mode: Mode, i: int) -> bool {
    &&& 0 <= i < ns.len()
    &&& service_of(ns[i], mode) is Err
    &&& forall|j: int| 0 <= j < i ==> service_of(#[trigger] ns[j], mode) is Ok
}

/// An error, if `r` is one, has a path that starts with the index, in
/// decimal, of the first item of `ns` that does not decode as a service.
pub open spec fn error_at_first_bad_service<T>(r: Result<T, DecodeError>, ns: Seq<Node>, mode: Mode) -> bool {
    match r {
        Err(e) => texts(e.path@).len() > 0 && exists|i: int|
            #[trigger] first_bad_service(ns, mode, i) && texts(e.path@)[0] == nat_text(i as nat),
        Ok(_) => true,
    }
}

pub fn decode_services(n: Option<&Node>, mode: Mode) -> (r: Result<Vec<Service>, DecodeError>)
    ensures
        match services_field(deref(n), mode) {
            Ok(t) => r matches Ok(o) && service_views(o@) == t,
            Err(k) => kind_is(r, k),
        },
        match deref(n) {
            Some(Node::Sequence(v)) => error_at_first_bad_service(r, v@, mode),
            _ => true,
        },
{
    let v = match n {
        None => {
            let out: Vec<Service> = Vec::new();
            assert(service_views(out@) =~= Seq::empty());
            return Ok(out);
        },
        Some(Node::Null) => {
            let out: Vec<Service> = Vec::new();
            assert(service_views(out@) =~= Seq::empty());
            return Ok(out);
        },
        Some(Node::Sequence(v)) => v,
        Some(_) => {
            return Err(shape_error("services"));
        },
    };
    let mut out: Vec<Service> = Vec::new();
    let mut i: usize = 0;
    assert(v@.subrange(0, 0) =~= Seq::empty());
    assert(service_views(out@) =~= Seq::empty());
    while i < v.len()
        invariant
            i <= v@.len(),
            deref(n) == Some(Node::Sequence(*v)),
            services_of(v@.subrange(0, i as int), mode) == Ok::<Seq<ServiceView>, ErrorKind>(service_views(out@)),
            forall|j: int| 0 <= j < i ==> service_of(#[trigger] v@[j], mode) is Ok,
        decreases v@.len() - i,
    {
        let ghost next = v@.subrange(0, i + 1);
        assert(next.drop_last() == v@.subrange(0, i as int));
        assert(next.last() == v@[i as int]);
        match decode_service(&v[i], mode) {
            Ok(x) => {
                let ghost before = out@;
                out.push(x);
                assert(service_views(out@) =~= service_views(before).push(out@.last()@));
            },
            Err(err) => {
                proof { lemma_services_prefix(v@, mode, i as int + 1, err.kind); }
                let err = err.within(nat_string(i as u64).as_str());
                proof {
                    assert(texts(err.path@).len() == err.path@.len());
                    assert(texts(err.path@)[0] == err.path@[0]@);
                    assert(first_bad_service(v@, mode, i as int));
                }
                return Err(err);
            },
        }
        i = i + 1;
    }
    assert(v@.subrange(0, v@.len() as int) == v@);
    Ok(out)
}

pub open spec fn opt_environment_of(n: Option<Node>, mode: Mode) -> Result<Option<EnvironmentView>, ErrorKind> {
    match n {
        None => Ok(None),
        Some(Node::Null) => Ok(None),
        Some(x) => match environment_of(x, mode) {
            Ok(v) => Ok(Some(v)),
            Err(k) => Err(k),
        },
    }
}

pub open spec fn opt_defaults_of(n: Option<Node>, mode: Mode) -> Result<Option<DefaultsView>, ErrorKind> {
    match n {
        None => Ok(None),
        Some(Node::Null) => Ok(None),
        Some(x) => match defaults_of(x, mode) {
            Ok(v) => Ok(Some(v)),
            Err(k) => Err(k),
        },
    }
}

pub open spec fn opt_container_of(n: Option<Node>, mode: Mode) -> Result<Option<ContainerView>, ErrorKind> {
    match n {
        None => Ok(None),
        Some(Node::Null) => Ok(None),
        Some(x) => match container_of(x, mode) {
            Ok(v) => Ok(Some(v)),
            Err(k) => Err(k),
        },
    }
}

pub open spec fn opt_strategy_of(n: Option<Node>, mode: Mode) -> Result<Option<StrategyView>, ErrorKind> {
    match n {
        None => Ok(None),
        Some(Node::Null) => Ok(None),
        Some(x) => match strategy_of(x, mode) {
            Ok(v) => Ok(Some(v)),
            Err(k) => Err(k),
        },
    }
}

/// Decodes an optional environment; null counts as absent.
pub fn decode_opt_environment(n: Option<&Node>, mode: Mode) -> (r: Result<Option<Environment>, DecodeError>)
    ensures
        match opt_environment_of(deref(n), mode) {
            Ok(v) => r matches Ok(o) && opt_environment(o) == v,
            Err(k) => kind_is(r, k),
        },
{
    match n {
        None => Ok(None),
        Some(Node::Null) => Ok(None),
        Some(x) => Ok(Some(decode_environment(x, mode)?)),
    }
}

/// Decodes optional default settings; null counts as absent.
pub fn decode_opt_defaults(n: Option<&Node>, mode: Mode) -> (r: Result<Option<Defaults>, DecodeError>)
    ensures
        match opt_defaults_of(deref(n), mode) {
            Ok(v) => r matches Ok(o) && opt_defaults(o) == v,
            Err(k) => kind_is(r, k),
        },
{
    match n {
        None => Ok(None),
        Some(Node::Null) => Ok(None),
        Some(x) => Ok(Some(decode_defaults(x, mode)?)),
    }
}

/// Decodes an optional container; null counts as absent.
pub fn decode_opt_container(n: Option<&Node>, mode: Mode) -> (r: Result<Option<Container>, DecodeError>)
    ensures
        match opt_container_of(deref(n), mode) {
            Ok(v) => r matches Ok(o) && opt_container(o) == v,
            Err(k) => kind_is(r, k),
        },
{
    match n {
        None => Ok(None),
        Some(Node::Null) => Ok(None),
        Some(x) => Ok(Some(decode_container(x, mode)?)),
    }
}

/// Decodes an optional strategy; null counts as absent.
pub fn decode_opt_strategy(n: Option<Node>, mode: Mode) -> (r: Result<Option<Strategy>, DecodeError>)
    ensures
        match opt_strategy_of(n, mode) {
            Ok(v) => r matches Ok(o) && opt_strategy(o) == v,
            Err(k) => kind_is(r, k),
        },
{
    match n {
        None => Ok(None),
        Some(Node::Null) => Ok(None),
        Some(x) => Ok(Some(decode_strategy(x, mode)?)),
    }
}

pub open spec fn job_keys() -> Seq<&'static str> {
    seq![
        "name",
        "needs",
        "runs-on",
        "environment",
        "outputs",
        "env",
        "defaults",
        "if",
        "steps",
        "timeout-minutes",
        "continue-on-error",
        "container",
        "services",
        "strategy",
    ]
}

/// A job, its fields read in the order of `job_keys`; the first field that
/// fails decides the error.
pub open spec fn job_of(n: Node, mode: Mode) -> Result<JobView, ErrorKind> {
    match n {
        Node::Mapping(es) => match entries_ok(es@, mode, job_keys()) {
            Err(k) => Err(k),
            Ok(_) => match opt_text_of(field(es@, "name"@)) {
                Err(k) => Err(k),
                Ok(name) => match needs_of(field(es@, "needs"@)) {
                    Err(k) => Err(k),
                    Ok(needs) => match runs_on_of(field(es@, "runs-on"@)) {
                        Err(k) => Err(k),
                        Ok(runs_on) => match opt_environment_of(field(es@, "environment"@), mode) {
                            Err(k) => Err(k),
                            Ok(environment) => match map_of(field(es@, "outputs"@)) {
                                Err(k) => Err(k),
                                Ok(outputs) => match map_or_empty(field(es@, "env"@)) {
                                    Err(k) => Err(k),
                                    Ok(env) => match opt_defaults_of(field(es@, "defaults"@), mode) {
                                        Err(k) => Err(k),
                                        Ok(defaults) => job_rest(es@, mode, name, needs, runs_on, environment, outputs, env, defaults),
                                    },
                                },
                            },
                        },
                    },
                },
            },
        },
        _ => Err(ErrorKind::ShapeMismatch),
    }
}

/// The fields of a job after `defaults`.
pub open spec fn job_rest(
    es: Seq<(String, Node)>,
    mode: Mode,
    name: Option<Seq<char>>,
    needs: Seq<Seq<char>>,
    runs_on: Seq<Seq<char>>,
    environment: Option<EnvironmentView>,
    outputs: Option<Seq<(Seq<char>, Seq<char>)>>,
    env: Seq<(Seq<char>, Seq<char>)>,
    defaults: Option<DefaultsView>,
) -> Result<JobView, ErrorKind> {
    match opt_text_of(field(es, "if"@)) {
        Err(k) => Err(k),
        Ok(run_if) => match steps_field(field(es, "steps"@), mode) {
            Err(k) => Err(k),
            Ok(steps) => match positive_of(field(es, "timeout-minutes"@)) {
                Err(k) => Err(k),
                Ok(timeout_minutes) => match bool_field(field(es, "continue-on-error"@)) {
                    Err(k) => Err(k),
                    Ok(continue_on_error) => match opt_container_of(field(es, "container"@), mode) {
                        Err(k) => Err(k),
                        Ok(container) => match services_field(field(es, "services"@), mode) {
                            Err(k) => Err(k),
                            Ok(services) => match opt_strategy_of(field(es, "strategy"@), mode) {
                                Err(k) => Err(k),
                                Ok(strategy) => Ok(
                                    JobView {
                                        name,
                                        needs,
                                        runs_on,
                                        environment,
                                        outputs,
                                        env,
                                        defaults,
                                        run_if,
                                        steps,
                                        timeout_minutes,
                                        continue_on_error,
                                        container,
                                        services,
                                        strategy,
                                    },
                                ),
                            },
                        },
                    },
                },
            },
        },
    }
}

/// Decodes one job.
pub fn decode_job(n: Node, mode: Mode) -> (r: Result<Job, DecodeError>)
    ensures
        match job_of(n, mode) {
            Ok(v) => r matches Ok(j) && j@ == v,
            Err(k) => kind_is(r, k),
        },
{
    match n {
        Node::Mapping(es) => {
            let names: [&str; 14] = [
                "name",
                "needs",
                "runs-on",
                "environment",
                "outputs",
                "env",
                "defaults",
                "if",
                "steps",
                "timeout-minutes",
                "continue-on-error",
                "container",
                "services",
                "strategy",
            ];
            assert(names@ =~= job_keys());
            check_entries(&es, mode, &names)?;
            let name = decode_opt_text(get_field(&es, "name"), "name")?;
            let needs = decode_needs(get_field(&es, "needs"))?;
            let runs_on = decode_runs_on(get_field(&es, "runs-on"))?;
            let environment = decode_opt_environment(get_field(&es, "environment"), mode)?;
            let outputs = decode_opt_map(get_field(&es, "outputs"), "outputs")?;
            let env = decode_map(get_field(&es, "env"), "env")?;
            let defaults = decode_opt_defaults(get_field(&es, "defaults"), mode)?;
            let run_if = decode_opt_text(get_field(&es, "if"), "if")?;
            let steps = match decode_steps(get_field(&es, "steps"), mode) {
                Ok(x) => x,
                Err(e) => {
                    return Err(e.within("steps"));
                },
            };
            let timeout_minutes = decode_opt_positive(get_field(&es, "timeout-minutes"), "timeout-minutes")?;
            let continue_on_error = decode_opt_bool(get_field(&es, "continue-on-error"), "continue-on-error")?;
            let container = decode_opt_container(get_field(&es, "container"), mode)?;
            let services = match decode_services(get_field(&es, "services"), mode) {
                Ok(x) => x,
                Err(e) => {
                    return Err(e.within("services"));
                },
            };
            let mut es = es;
            let strategy = decode_opt_strategy(take_field(&mut es, "strategy"), mode)?;
            Ok(
                Job {
                    name,
                    needs,
                    runs_on,
                    environment,
                    outputs,
                    env,
                    defaults,
                    run_if,
                    steps,
                    timeout_minutes,
                    continue_on_error,
                    container,
                    services,
                    strategy,
                },
            )
        },
        _ => Err(shape_error("job")),
    }
}

/// The jobs of a mapping from job ids to jobs, or the error of the first
/// bad job.
pub open spec fn jobs_of(es: Seq<(String, Node)>, mode: Mode) -> Result<Seq<(Seq<char>, JobView)>, ErrorKind>
    decreases es.len(),
{
    if es.len() == 0 {
        Ok(Seq::empty())
    } else {
        match jobs_of(es.drop_last(), mode) {
            Err(k) => Err(k),
            Ok(t) => match job_of(es.last().1, mode) {
                Err(k) => Err(k),
                Ok(j) => Ok(t.push((es.last().0@, j))),
            },
        }
    }
}

pub open spec fn key_views(es: Seq<(String, Node)>) -> Seq<Seq<char>> {
    es.map_values(|e: (String, Node)| e.0@)
}

pub open spec fn job_ids(js: Seq<(Seq<char>, JobView)>) -> Seq<Seq<char>> {
    js.map_values(|e: (Seq<char>, JobView)| e.0)
}

pub open spec fn job_needs(js: Seq<(Seq<char>, JobView)>) -> Seq<Seq<Seq<char>>> {
    js.map_values(|e: (Seq<char>, JobView)| e.1.needs)
}

/// The whole-workflow checks on decoded jobs: every needed job exists, and
/// the `needs` relation has no cycle.
pub open spec fn jobs_checked(t: Seq<(Seq<char>, JobView)>) -> Result<Seq<(Seq<char>, JobView)>, ErrorKind> {
    if !needs_exist(job_ids(t), job_needs(t)) {
        Err(ErrorKind::DanglingReference)
    } else if !acyclic(job_ids(t), job_needs(t)) {
        Err(ErrorKind::CyclicDependency)
    } else {
        Ok(t)
    }
}

pub open spec fn jobs_field(n: Option<Node>, mode: Mode) -> Result<Seq<(Seq<char>, JobView)>, ErrorKind> {
    match n {
        None => Err(ErrorKind::MissingRequiredField),
        Some(Node::Null) => Err(ErrorKind::MissingRequiredField),
        Some(Node::Mapping(js)) => if !keys_unique(js@) {
            Err(ErrorKind::DuplicateKey)
        } else {
            match jobs_of(js@, mode) {
                Err(k) => Err(k),
                Ok(t) => jobs_checked(t),
            }
        },
        _ => Err(ErrorKind::ShapeMismatch),
    }
}

pub open spec fn on_field(n: Option<Node>, mode: Mode) -> Result<TriggerView, ErrorKind> {
    match n {
        None => Err(ErrorKind::MissingRequiredField),
        Some(Node::Null) => Err(ErrorKind::MissingRequiredField),
        Some(x) => trigger_of(x, mode),
    }
}

pub open spec fn workflow_keys() -> Seq<&'static str> {
    seq!["name", "on", "env", "defaults", "jobs"]
}

/// A workflow document: a mapping whose fields are read in the order name,
/// env, defaults, on, jobs; the first failure decides the error.
pub open spec fn workflow_of(n: Node, mode: Mode) -> Result<WorkflowView, ErrorKind> {
    match n {
        Node::Mapping(es) => match entries_ok(es@, mode, workflow_keys()) {
            Err(k) => Err(k),
            Ok(_) => match opt_text_of(field(es@, "name"@)) {
                Err(k) => Err(k),
                Ok(name) => match map_of(field(es@, "env"@)) {
                    Err(k) => Err(k),
                    Ok(env) => match opt_defaults_of(field(es@, "defaults"@), mode) {
                        Err(k) => Err(k),
                        Ok(defaults) => match on_field(field(es@, "on"@), mode) {
                            Err(k) => Err(k),
                            Ok(on) => match jobs_field(field(es@, "jobs"@), mode) {
                                Err(k) => Err(k),
                                Ok(jobs) => Ok(WorkflowView { name, env, defaults, on, jobs }),
                            },
                        },
                    },
                },
            },
        },
        _ => Err(ErrorKind::ShapeMismatch),
    }
}

proof fn lemma_jobs_prefix(s: Seq<(String, Node)>, mode: Mode, k: int, e: ErrorKind)
    requires
        0 <= k <= s.len(),
        jobs_of(s.subrange(0, k), mode) == Err::<Seq<(Seq<char>, JobView)>, ErrorKind>(e),
    ensures
        jobs_of(s, mode) == Err::<Seq<(Seq<char>, JobView)>, ErrorKind>(e),
    decreases s.len() - k,
{
    if k < s.len() {
        assert(s.subrange(0, k + 1).drop_last() == s.subrange(0, k));
        lemma_jobs_prefix(s, mode, k + 1, e);
    } else {
        assert(s.subrange(0, k) == s);
    }
}

/// Entry `i` is the first job of `es` that does not decode.
pub open spec fn first_bad_job(es: Seq<(String, Node)>, mode: Mode, i: int) -> bool {
    &&& 0 <= i < es.len()
    &&& job_of(es[i].1, mode) is Err
    &&& forall|j: int| 0 <= j < i ==> job_of((#[trigger] es[j]).1, mode) is Ok
}

/// An error, if `r` is one, has a path that starts with `prefix` and then
/// the id of the first job of `es` that does not decode.
pub open spec fn error_under_job<T>(
    r: Result<T, DecodeError>,
    es: Seq<(String, Node)>,
    mode: Mode,
    prefix: Seq<Seq<char>>,
) -> bool {
    match r {
        Err(e) => {
            let p = texts(e.path@);
            &&& p.len() > prefix.len()
            &&& p.subrange(0, prefix.len() as int) == prefix
            &&& exists|i: int| #[trigger] first_bad_job(es, mode, i) && p[prefix.len() as int] == es[i].0@
        },
        Ok(_) => true,
    }
}

/// Decodes the jobs of a mapping from job ids to jobs.
pub fn decode_jobs(es: Vec<(String, Node)>, mode: Mode) -> (r: Result<Vec<(String, Job)>, DecodeError>)
    ensures
        match jobs_of(es@, mode) {
            Ok(t) => r matches Ok(o) && job_entry_views(o@) == t,
            Err(k) => kind_is(r, k),
        },
        r matches Ok(o) ==> o@.len() == es@.len() && forall|i: int|
            0 <= i < o@.len() ==> (#[trigger] o@[i]).0@ == es@[i].0@,
        error_under_job(r, es@, mode, Seq::empty()),
{
    let ghost orig = es@;
    let mut items = es;
    let mut out: Vec<(String, Job)> = Vec::new();
    let mut i: usize = 0;
    assert(orig.subrange(0, 0) =~= Seq::empty());
    assert(job_entry_views(out@) =~= Seq::empty());
    while i < items.len()
        invariant
            orig == es@,
            items@.len() == orig.len(),
            i <= orig.len(),
            out@.len() == i,
            forall|j: int| i <= j < orig.len() ==> items@[j] == orig[j],
            forall|j: int| 0 <= j < i ==> (#[trigger] out@[j]).0@ == orig[j].0@,
            jobs_of(orig.subrange(0, i as int), mode) == Ok::<Seq<(Seq<char>, JobView)>, ErrorKind>(
                job_entry_views(out@),
            ),
            forall|j: int| 0 <= j < i ==> job_of((#[trigger] orig[j]).1, mode) is Ok,
        decreases orig.len() - i,
    {
        let mut item = (String::new(), Node::Null);
        items.set_and_swap(i, &mut item);
        let ghost next = orig.subrange(0, i + 1);
        assert(next.drop_last() == orig.subrange(0, i as int));
        assert(next.last() == item);
        let (id, node) = item;
        match decode_job(node, mode) {
            Ok(job) => {
                let ghost before = out@;
                out.push((id, job));
                assert(job_entry_views(out@) =~= job_entry_views(before).push((out@.last().0@, out@.last().1@)));
            },
            Err(err) => {
                proof { lemma_jobs_prefix(orig, mode, i as int + 1, err.kind); }
                let err = err.within(id.as_str());
                proof {
                    assert(first_bad_job(orig, mode, i as int));
                    assert(texts(err.path@).len() == err.path@.len());
                    assert(err.path@.len() > 0);
                    assert(texts(err.path@)[0] == err.path@[0]@);
                    assert(err.path@[0]@ == orig[i as int].0@);
                    assert(texts(err.path@).subrange(0, 0) =~= Seq::<Seq<char>>::empty());
                }
                return Err(err);
            },
        }
        i = i + 1;
    }
    assert(orig.subrange(0, orig.len() as int) == orig);
    Ok(out)
}

fn copy_strings(v: &Vec<String>) -> (r: Vec<String>)
    ensures
        texts(r@) == texts(v@),
{
    let mut r: Vec<String> = Vec::new();
    let mut i: usize = 0;
    while i < v.len()
        invariant
            i <= v@.len(),
            r@.len() == i,
            forall|j: int| 0 <= j < i ==> (#[trigger] r@[j])@ == v@[j]@,
        decreases v@.len() - i,
    {
        r.push(v[i].clone());
        i = i + 1;
    }
    assert(texts(r@) =~= texts(v@));
    r
}

/// Checks that every needed job exists and that the jobs can be ordered.
fn check_jobs(jobs: &Vec<(String, Job)>) -> (r: Result<(), DecodeError>)
    requires
        ids_unique(job_ids(job_entry_views(jobs@))),
    ensures
        match jobs_checked(job_entry_views(jobs@)) {
            Ok(_) => r is Ok,
            Err(k) => kind_is(r, k),
        },
        !needs_exist(job_ids(job_entry_views(jobs@)), job_needs(job_entry_views(jobs@))) ==> reports_missing(
            job_ids(job_entry_views(jobs@)),
            job_needs(job_entry_views(jobs@)),
            r,
            seq!["jobs"@],
        ),
        needs_exist(job_ids(job_entry_views(jobs@)), job_needs(job_entry_views(jobs@))) && !acyclic(
            job_ids(job_entry_views(jobs@)),
            job_needs(job_entry_views(jobs@)),
        ) ==> reports_cycle(job_ids(job_entry_views(jobs@)), job_needs(job_entry_views(jobs@)), r, seq!["jobs"@]),
{
    let ghost t = job_entry_views(jobs@);
    let mut ids: Vec<String> = Vec::new();
    let mut needs: Vec<Vec<String>> = Vec::new();
    let mut i: usize = 0;
    while i < jobs.len()
        invariant
            t == job_entry_views(jobs@),
            i <= jobs@.len(),
            ids@.len() == i,
            needs@.len() == i,
            forall|j: int| 0 <= j < i ==> (#[trigger] ids@[j])@ == t[j].0,
            forall|j: int| 0 <= j < i ==> texts((#[trigger] needs@[j])@) == t[j].1.needs,
        decreases jobs@.len() - i,
    {
        ids.push(jobs[i].0.clone());
        needs.push(copy_strings(&jobs[i].1.needs));
        i = i + 1;
    }
    assert(texts(ids@) =~= job_ids(t));
    assert(needs_views(needs@) =~= job_needs(t));
    match dependency_order(&ids, &needs) {
        Ok(_) => Ok(()),
        Err(e) => {
            let ghost inner = e;
            let e = e.within("jobs");
            proof {
                if !needs_exist(job_ids(t), job_needs(t)) {
                    let (j, k) = choose|j: int, k: int|
                        0 <= j < job_needs(t).len() && 0 <= k < job_needs(t)[j].len() && inner.subject@
                            == #[trigger] job_needs(t)[j][k] && !job_ids(t).contains(job_needs(t)[j][k]) && texts(
                            inner.path@,
                        ) == Seq::<Seq<char>>::empty().push(job_ids(t)[j]);
                    assert(texts(inner.path@).len() == 1);
                    assert(inner.path@.len() == 1);
                    assert(e.path@[1] == inner.path@[0]);
                    assert(texts(inner.path@)[0] == job_ids(t)[j]);
                    assert(inner.path@[0]@ == job_ids(t)[j]);
                    assert(e.path@.len() == 2);
                    assert(e.path@[0]@ == "jobs"@);
                    assert(texts(e.path@) =~= seq!["jobs"@].push(job_ids(t)[j]));
                }
                if needs_exist(job_ids(t), job_needs(t)) && !acyclic(job_ids(t), job_needs(t)) {
                    assert(texts(inner.path@) == Seq::<Seq<char>>::empty());
                    assert(texts(inner.path@).len() == inner.path@.len());
                    assert(inner.path@.len() == 0);
                    assert(e.path@.len() == 1);
                    assert(texts(e.path@) =~= seq!["jobs"@]);
                    let c = choose|c: Seq<usize>|
                        #[trigger] job_cycle(job_ids(t), job_needs(t), c) && inner.subject@ == job_ids(t)[c[0] as int];
                    assert(job_cycle(job_ids(t), job_needs(t), c));
                }
            }
            Err(e)
        },
    }
}

proof fn lemma_unique_ids(es: Seq<(String, Node)>, o: Seq<(String, Job)>)
    requires
        keys_unique(es),
        o.len() == es.len(),
        forall|i: int| 0 <= i < o.len() ==> (#[trigger] o[i]).0@ == es[i].0@,
    ensures
        ids_unique(job_ids(job_entry_views(o))),
{
    assert forall|i: int, j: int| 0 <= i < j < o.len() implies job_ids(job_entry_views(o))[i] != job_ids(
        job_entry_views(o),
    )[j] by {
        assert(es[i].0@ != es[j].0@);
        assert(o[i].0@ == es[i].0@);
        assert(o[j].0@ == es[j].0@);
    }
}

/// The fields read before `on` decode.
pub open spec fn head_ok(es: Seq<(String, Node)>, mode: Mode) -> bool {
    &&& entries_ok(es, mode, workflow_keys()) is Ok
    &&& opt_text_of(field(es, "name"@)) is Ok
    &&& map_of(field(es, "env"@)) is Ok
    &&& opt_defaults_of(field(es, "defaults"@), mode) is Ok
}

/// The decoded jobs, where decoding gets as far as the whole-workflow checks.
pub open spec fn jobs_reached(n: Node, mode: Mode) -> Option<Seq<(Seq<char>, JobView)>> {
    match n {
        Node::Mapping(es) => if head_ok(es@, mode) && on_field(field(es@, "on"@), mode) is Ok {
            match field(es@, "jobs"@) {
                Some(Node::Mapping(js)) => if keys_unique(js@) {
                    match jobs_of(js@, mode) {
                        Ok(t) => Some(t),
                        Err(_) => None,
                    }
                } else {
                    None
                },
                _ => None,
            }
        } else {
            None
        },
        _ => None,
    }
}

/// An unknown key at the root is reported by name, at the root.
pub open spec fn unknown_located<T>(n: Node, mode: Mode, r: Result<T, DecodeError>) -> bool {
    match n {
        Node::Mapping(es) => entries_ok(es@, mode, workflow_keys()) == Err::<(), ErrorKind>(ErrorKind::UnknownField)
            ==> reports_unknown(es@, workflow_keys(), r),
        _ => true,
    }
}

/// The schedule entries under `on`, where `on` is a schedule.
pub open spec fn on_entries(es: Seq<(String, Node)>) -> Seq<Node> {
    match field(es, "on"@) {
        Some(x) => schedule_entries(x),
        None => Seq::empty(),
    }
}

/// A bad cron expression is reported at `on`, `schedule`, the index of the
/// first bad entry, `cron`.
pub open spec fn cron_located<T>(n: Node, mode: Mode, r: Result<T, DecodeError>) -> bool {
    match n {
        Node::Mapping(es) => (head_ok(es@, mode) && on_field(field(es@, "on"@), mode) == Err::<TriggerView, ErrorKind>(
            ErrorKind::InvalidValue,
        )) ==> match r {
            Err(e) => e.kind == ErrorKind::InvalidValue && e.path@.len() == 4 && e.path@[0]@ == "on"@ && schedule_path(
                e.path@.subrange(1, 4),
                on_entries(es@),
                mode,
            ),
            Ok(_) => false,
        },
        _ => true,
    }
}

/// A needed job that does not exist is reported by its id, under `jobs` and
/// the id of the job that needs it.
pub open spec fn dangling_located<T>(n: Node, mode: Mode, r: Result<T, DecodeError>) -> bool {
    match jobs_reached(n, mode) {
        Some(t) => !needs_exist(job_ids(t), job_needs(t)) ==> reports_missing(
            job_ids(t),
            job_needs(t),
            r,
            seq!["jobs"@],
        ),
        None => true,
    }
}

/// An error inside a job is reported under `jobs` and the id of the first
/// job that does not decode.
pub open spec fn job_error_located<T>(n: Node, mode: Mode, r: Result<T, DecodeError>) -> bool {
    match n {
        Node::Mapping(es) => (head_ok(es@, mode) && on_field(field(es@, "on"@), mode) is Ok) ==> match field(
            es@,
            "jobs"@,
        ) {
            Some(Node::Mapping(js)) => (keys_unique(js@) && jobs_of(js@, mode) is Err) ==> error_under_job(
                r,
                js@,
                mode,
                seq!["jobs"@],
            ),
            _ => true,
        },
        _ => true,
    }
}

/// A dependency cycle is reported under `jobs`, by a job on the cycle.
pub open spec fn cycle_located<T>(n: Node, mode: Mode, r: Result<T, DecodeError>) -> bool {
    match jobs_reached(n, mode) {
        Some(t) => needs_exist(job_ids(t), job_needs(t)) && !acyclic(job_ids(t), job_needs(t)) ==> reports_cycle(
            job_ids(t),
            job_needs(t),
            r,
            seq!["jobs"@],
        ),
        None => true,
    }
}

impl Workflow {
    /// Decodes a workflow document. In strict mode a key that the decoder
    /// does not know is rejected; in lenient mode it is ignored.
    pub fn decode(n: Node, mode: Mode) -> (r: Result<Workflow, DecodeError>)
        ensures
            match workflow_of(n, mode) {
                Ok(v) => r matches Ok(w) && w@ == v,
                Err(k) => kind_is(r, k),
            },
            unknown_located(n, mode, r),
            cron_located(n, mode, r),
            dangling_located(n, mode, r),
            cycle_located(n, mode, r),
            job_error_located(n, mode, r),
    {
        match n {
            Node::Mapping(es) => {
                let names: [&str; 5] = ["name", "on", "env", "defaults", "jobs"];
                assert(names@ =~= workflow_keys());
                check_entries(&es, mode, &names)?;
                let name = decode_opt_text(get_field(&es, "name"), "name")?;
                let env = decode_opt_map(get_field(&es, "env"), "env")?;
                let defaults = decode_opt_defaults(get_field(&es, "defaults"), mode)?;
                let ghost es0 = es@;
                let mut es = es;
                let on = match take_field(&mut es, "on") {
                    None => {
                        return Err(DecodeError::new(ErrorKind::MissingRequiredField, "on".to_string()));
                    },
                    Some(Node::Null) => {
                        return Err(DecodeError::new(ErrorKind::MissingRequiredField, "on".to_string()));
                    },
                    Some(x) => match decode_trigger(x, mode) {
                        Ok(t) => t,
                        Err(e) => {
                            let ghost inner = e.path@;
                            let e = e.within("on");
                            assert(e.path@.subrange(1, e.path@.len() as int) == inner);
                            return Err(e);
                        },
                    },
                };
                proof {
                    reveal_strlit("on");
                    reveal_strlit("jobs");
                    assert("on"@.len() != "jobs"@.len());
                    lemma_field_without(es0, "on"@, "jobs"@);
                }
                let jobs = match take_field(&mut es, "jobs") {
                    None => {
                        return Err(DecodeError::new(ErrorKind::MissingRequiredField, "jobs".to_string()));
                    },
                    Some(Node::Null) => {
                        return Err(DecodeError::new(ErrorKind::MissingRequiredField, "jobs".to_string()));
                    },
                    Some(Node::Mapping(js)) => {
                        match find_duplicate(&js) {
                            Some(j) => {
                                return Err(DecodeError::new(ErrorKind::DuplicateKey, js[j].0.clone()).within("jobs"));
                            },
                            None => {},
                        }
                        let ghost keys = js@;
                        let jobs = match decode_jobs(js, mode) {
                            Ok(v) => v,
                            Err(e) => {
                                let ghost inner = e.path@;
                                let e = e.within("jobs");
                                proof {
                                    let p = texts(e.path@);
                                    let q = texts(inner);
                                    assert(p =~= seq!["jobs"@] + q);
                                    let i = choose|i: int| #[trigger] first_bad_job(keys, mode, i) && q[0] == keys[i].0@;
                                    assert(p[1] == q[0]);
                                    assert(p.subrange(0, 1) =~= seq!["jobs"@]);
                                    assert(first_bad_job(keys, mode, i) && p[1] == keys[i].0@);
                                }
                                return Err(e);
                            },
                        };
                        proof { lemma_unique_ids(keys, jobs@); }
                        check_jobs(&jobs)?;
                        jobs
                    },
                    Some(_) => {
                        return Err(shape_error("jobs"));
                    },
                };
                Ok(Workflow { name, on, env, defaults, jobs })
            },
            _ => Err(shape_error("workflow")),
        }
    }
}

} // verus!
