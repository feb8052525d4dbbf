use vstd::prelude::*;
use vstd::pervasive::VecAdditionalExecFns;
use crate::cron::is_cron;
use crate::decode::{
    container_keys,
    container_of,
    cron_entry_of,
    defaults_keys,
    defaults_of,
    environment_keys,
    environment_of,
    event_map_of,
    job_ids,
    job_keys,
    job_needs,
    job_of,
    jobs_checked,
    jobs_field,
    jobs_of,
    needs_of,
    on_field,
    opt_container_of,
    opt_defaults_of,
    opt_environment_of,
    opt_strategy_of,
    payload_of,
    run_keys,
    runs_on_of,
    schedule_entry_keys,
    schedule_of,
    service_keys,
    service_of,
    services_field,
    services_of,
    step_keys,
    step_of,
    steps_field,
    steps_of,
    strategy_keys,
    strategy_of,
    trigger_of,
    workflow_keys,
    workflow_of,
};
use crate::error::{ErrorKind, Mode};
use crate::fields::{
    bool_field,
    list_of,
    map_of,
    map_or_empty,
    opt_text_of,
    opt_view,
    pair_views,
    positive_of,
    text_list,
    text_pairs,
    texts,
};
use crate::graph::{acyclic, ids_unique, needs_exist};
use crate::ident::is_job_id;
use crate::model::{
    cron_views,
    event_views,
    job_entry_views,
    opt_container,
    opt_defaults,
    opt_environment,
    opt_pairs,
    opt_strategy,
    service_views,
    step_views,
    Container,
    ContainerView,
    CronSchedule,
    Defaults,
    DefaultSettings,
    DefaultsView,
    Environment,
    EnvironmentView,
    Event,
    EventView,
    Job,
    JobView,
    Service,
    ServiceView,
    Step,
    StepView,
    Strategy,
    StrategyView,
    Trigger,
    TriggerView,
    Workflow,
    WorkflowView,
};
use crate::node::{field, has_key, has_unknown, is_known, keys_unique, lemma_field_at, Node};

verus! {

/// No two of `names` are equal.
pub open spec fn distinct_names(names: Seq<&str>) -> bool {
    forall|i: int, j: int| 0 <= i < j < names.len() ==> names[i]@ != names[j]@
}

/// No key repeats among the entries of a string mapping.
pub open spec fn pair_keys_unique(p: Seq<(Seq<char>, Seq<char>)>) -> bool {
    forall|i: int, j: int| 0 <= i < j < p.len() ==> p[i].0 != p[j].0
}

pub open spec fn opt_pair_keys_unique(p: Option<Seq<(Seq<char>, Seq<char>)>>) -> bool {
    match p {
        Some(q) => pair_keys_unique(q),
        None => true,
    }
}

/// A mapping laid out with exactly the keys `names`, in order.
pub open spec fn laid_out(es: Seq<(String, Node)>, names: Seq<&str>) -> bool {
    es.len() == names.len() && forall|i: int| 0 <= i < es.len() ==> (#[trigger] es[i]).0@ == names[i]@
}

pub proof fn lemma_laid_out(es: Seq<(String, Node)>, names: Seq<&str>)
    requires
        laid_out(es, names),
        distinct_names(names),
    ensures
        keys_unique(es),
        !has_unknown(es, names),
        forall|i: int| 0 <= i < es.len() ==> field(es, (#[trigger] names[i])@) == Some(es[i].1),
{
    assert forall|i: int, j: int| 0 <= i < j < es.len() implies (#[trigger] es[i]).0@ != (#[trigger] es[j]).0@ by {
        assert(names[i]@ != names[j]@);
    }
    assert forall|i: int| 0 <= i < es.len() implies is_known(names, (#[trigger] es[i]).0@) by {
        assert(names[i]@ == es[i].0@);
    }
    assert forall|i: int| 0 <= i < es.len() implies field(es, (#[trigger] names[i])@) == Some(es[i].1) by {
        lemma_field_at(es, names[i]@, i);
    }
}

/// An optional text, as null or a string.
pub fn encode_opt_text(o: Option<String>) -> (r: Node)
    ensures
        opt_text_of(Some(r)) == Ok::<Option<Seq<char>>, crate::error::ErrorKind>(opt_view(o)),
{
    match o {
        Some(s) => Node::Str(s),
        None => Node::Null,
    }
}

/// A list of strings, as a sequence.
pub fn encode_text_list(v: Vec<String>) -> (r: Node)
    ensures
        r matches Node::Sequence(w) && text_list(w@) == Some(texts(v@)),
        list_of(Some(r)) == Ok::<Seq<Seq<char>>, crate::error::ErrorKind>(texts(v@)),
{
    let ghost orig = v@;
    let mut items = v;
    let mut out: Vec<Node> = Vec::new();
    let mut i: usize = 0;
    assert(texts(orig.subrange(0, 0)) =~= Seq::empty());
    while i < items.len()
        invariant
            orig == v@,
            items@.len() == orig.len(),
            i <= orig.len(),
            forall|j: int| i <= j < orig.len() ==> items@[j] == orig[j],
            text_list(out@) == Some(texts(orig.subrange(0, i as int))),
        decreases orig.len() - i,
    {
        let mut s = String::new();
        items.set_and_swap(i, &mut s);
        let ghost before = out@;
        out.push(Node::Str(s));
        assert(out@.drop_last() == before);
        assert(texts(orig.subrange(0, i + 1)) =~= texts(orig.subrange(0, i as int)).push(s@));
        i = i + 1;
    }
    assert(orig.subrange(0, orig.len() as int) == orig);
    Node::Sequence(out)
}

/// A mapping from names to strings.
pub fn encode_map(v: Vec<(String, String)>) -> (r: Node)
    requires
        pair_keys_unique(pair_views(v@)),
    ensures
        r matches Node::Mapping(es) && keys_unique(es@) && text_pairs(es@) == Some(pair_views(v@)),
        map_of(Some(r)) == Ok::<Option<Seq<(Seq<char>, Seq<char>)>>, crate::error::ErrorKind>(Some(pair_views(v@))),
        map_or_empty(Some(r)) == Ok::<Seq<(Seq<char>, Seq<char>)>, crate::error::ErrorKind>(pair_views(v@)),
{
    let ghost orig = v@;
    let mut items = v;
    let mut out: Vec<(String, Node)> = Vec::new();
    let mut i: usize = 0;
    assert(pair_views(orig.subrange(0, 0)) =~= Seq::empty());
    while i < items.len()
        invariant
            orig == v@,
            pair_keys_unique(pair_views(orig)),
            items@.len() == orig.len(),
            i <= orig.len(),
            out@.len() == i,
            forall|j: int| i <= j < orig.len() ==> items@[j] == orig[j],
            forall|j: int| 0 <= j < i ==> (#[trigger] out@[j]).0@ == orig[j].0@,
            text_pairs(out@) == Some(pair_views(orig.subrange(0, i as int))),
        decreases orig.len() - i,
    {
        let mut p = (String::new(), String::new());
        items.set_and_swap(i, &mut p);
        let (k, s) = p;
        let ghost before = out@;
        out.push((k, Node::Str(s)));
        assert(out@.drop_last() == before);
        assert(pair_views(orig.subrange(0, i + 1)) =~= pair_views(orig.subrange(0, i as int)).push((k@, s@)));
        i = i + 1;
    }
    assert(orig.subrange(0, orig.len() as int) == orig);
    assert forall|a: int, b: int| 0 <= a < b < out@.len() implies (#[trigger] out@[a]).0@ != (#[trigger] out@[b]).0@ by {
        assert(pair_views(orig)[a].0 != pair_views(orig)[b].0);
    }
    Node::Mapping(out)
}

/// An optional mapping from names to strings, as null or a mapping.
pub fn encode_opt_map(o: Option<Vec<(String, String)>>) -> (r: Node)
    requires
        opt_pair_keys_unique(opt_pairs(o)),
    ensures
        map_of(Some(r)) == Ok::<Option<Seq<(Seq<char>, Seq<char>)>>, crate::error::ErrorKind>(opt_pairs(o)),
{
    match o {
        Some(v) => encode_map(v),
        None => Node::Null,
    }
}

/// A container that can be written out and read back: its mappings have
/// unique keys.
pub open spec fn container_wf(c: ContainerView) -> bool {
    opt_pair_keys_unique(c.credentials) && opt_pair_keys_unique(c.env)
}

impl Container {
    /// This container as a detailed mapping.
    pub fn encode(self) -> (r: Node)
        requires
            container_wf(self@),
        ensures
            forall|m: Mode| #[trigger] container_of(r, m) == Ok::<ContainerView, crate::error::ErrorKind>(self@),
    {
        let ghost v = self@;
        let Container { name, credentials, env, ports, volumes, options } = self;
        let mut es: Vec<(String, Node)> = Vec::new();
        es.push(("name".to_string(), Node::Str(name)));
        es.push(("credentials".to_string(), encode_opt_map(credentials)));
        es.push(("env".to_string(), encode_opt_map(env)));
        es.push(("ports".to_string(), encode_text_list(ports)));
        es.push(("volumes".to_string(), encode_text_list(volumes)));
        es.push(("options".to_string(), encode_text_list(options)));
        proof {
            reveal_strlit("name");
            reveal_strlit("credentials");
            reveal_strlit("env");
            reveal_strlit("ports");
            reveal_strlit("volumes");
            reveal_strlit("options");
            let ks = container_keys();
            assert forall|i: int, j: int| 0 <= i < j < ks.len() implies ks[i]@ != ks[j]@ by {
                assert(ks[i]@.len() != ks[j]@.len() || ks[i]@[0] != ks[j]@[0]);
            }
            assert(laid_out(es@, container_keys()));
            lemma_laid_out(es@, container_keys());
            assert(field(es@, container_keys()[0]@) == Some(es@[0].1));
            assert(field(es@, container_keys()[1]@) == Some(es@[1].1));
            assert(field(es@, container_keys()[2]@) == Some(es@[2].1));
            assert(field(es@, container_keys()[3]@) == Some(es@[3].1));
            assert(field(es@, container_keys()[4]@) == Some(es@[4].1));
            assert(field(es@, container_keys()[5]@) == Some(es@[5].1));
        }
        Node::Mapping(es)
    }
}

/// An optional boolean, as null or a boolean.
pub fn encode_opt_bool(o: Option<bool>) -> (r: Node)
    ensures
        bool_field(Some(r)) == Ok::<Option<bool>, ErrorKind>(o),
{
    match o {
        Some(b) => Node::Bool(b),
        None => Node::Null,
    }
}

pub open spec fn positive_opt(o: Option<i64>) -> bool {
    o matches Some(v) ==> v >= 1
}

/// An optional count, as null or an integer.
pub fn encode_opt_positive(o: Option<i64>) -> (r: Node)
    requires
        positive_opt(o),
    ensures
        positive_of(Some(r)) == Ok::<Option<i64>, ErrorKind>(o),
{
    match o {
        Some(v) => Node::Int(v),
        None => Node::Null,
    }
}

impl Environment {
    /// This environment as a mapping.
    pub fn encode(self) -> (r: Node)
        ensures
            forall|m: Mode| #[trigger] environment_of(r, m) == Ok::<EnvironmentView, ErrorKind>(self@),
    {
        let Environment { name, url } = self;
        let mut es: Vec<(String, Node)> = Vec::new();
        es.push(("name".to_string(), Node::Str(name)));
        es.push(("url".to_string(), encode_opt_text(url)));
        proof {
            reveal_strlit("name");
            reveal_strlit("url");
            let ks = environment_keys();
            assert forall|i: int, j: int| 0 <= i < j < ks.len() implies ks[i]@ != ks[j]@ by {
                assert(ks[i]@.len() != ks[j]@.len() || ks[i]@[0] != ks[j]@[0]);
            }
            assert(laid_out(es@, ks));
            lemma_laid_out(es@, ks);
            assert(field(es@, ks[0]@) == Some(es@[0].1));
            assert(field(es@, ks[1]@) == Some(es@[1].1));
        }
        Node::Mapping(es)
    }
}

impl Defaults {
    /// These defaults as a mapping with a `run` mapping inside.
    pub fn encode(self) -> (r: Node)
        ensures
            forall|m: Mode| #[trigger] defaults_of(r, m) == Ok::<DefaultsView, ErrorKind>(self@),
    {
        let Defaults { run: DefaultSettings { shell, working_directory } } = self;
        let mut rs: Vec<(String, Node)> = Vec::new();
        rs.push(("shell".to_string(), encode_opt_text(shell)));
        rs.push(("working-directory".to_string(), encode_opt_text(working_directory)));
        let mut es: Vec<(String, Node)> = Vec::new();
        let ghost rv = rs@;
        es.push(("run".to_string(), Node::Mapping(rs)));
        proof {
            reveal_strlit("shell");
            reveal_strlit("working-directory");
            reveal_strlit("run");
            let ks = run_keys();
            assert forall|i: int, j: int| 0 <= i < j < ks.len() implies ks[i]@ != ks[j]@ by {
                assert(ks[i]@.len() != ks[j]@.len() || ks[i]@[0] != ks[j]@[0]);
            }
            assert(laid_out(rv, ks));
            lemma_laid_out(rv, ks);
            assert(field(rv, ks[0]@) == Some(rv[0].1));
            assert(field(rv, ks[1]@) == Some(rv[1].1));
            let ds = defaults_keys();
            assert(distinct_names(ds));
            assert(laid_out(es@, ds));
            lemma_laid_out(es@, ds);
            assert(field(es@, ds[0]@) == Some(es@[0].1));
        }
        Node::Mapping(es)
    }
}

impl Service {
    /// This service as a mapping.
    pub fn encode(self) -> (r: Node)
        ensures
            forall|m: Mode| #[trigger] service_of(r, m) == Ok::<ServiceView, ErrorKind>(self@),
    {
        let Service { name, ports } = self;
        let mut es: Vec<(String, Node)> = Vec::new();
        es.push(("name".to_string(), Node::Str(name)));
        es.push(("ports".to_string(), encode_text_list(ports)));
        proof {
            reveal_strlit("name");
            reveal_strlit("ports");
            let ks = service_keys();
            assert forall|i: int, j: int| 0 <= i < j < ks.len() implies ks[i]@ != ks[j]@ by {
                assert(ks[i]@.len() != ks[j]@.len() || ks[i]@[0] != ks[j]@[0]);
            }
            assert(laid_out(es@, ks));
            lemma_laid_out(es@, ks);
            assert(field(es@, ks[0]@) == Some(es@[0].1));
            assert(field(es@, ks[1]@) == Some(es@[1].1));
        }
        Node::Mapping(es)
    }
}

/// A step that can be written out and read back.
pub open spec fn step_wf(s: StepView) -> bool {
    pair_keys_unique(s.with) && pair_keys_unique(s.env) && positive_opt(s.timeout_minutes)
}

impl Step {
    /// This step as a mapping.
    pub fn encode(self) -> (r: Node)
        requires
            step_wf(self@),
        ensures
            forall|m: Mode| #[trigger] step_of(r, m) == Ok::<StepView, ErrorKind>(self@),
    {
        let Step { name, id, run_if, uses, run, with, env, continue_on_error, timeout_minutes } = self;
        let mut es: Vec<(String, Node)> = Vec::new();
        es.push(("name".to_string(), encode_opt_text(name)));
        es.push(("id".to_string(), encode_opt_text(id)));
        es.push(("if".to_string(), encode_opt_text(run_if)));
        es.push(("uses".to_string(), encode_opt_text(uses)));
        es.push(("run".to_string(), encode_opt_text(run)));
        es.push(("with".to_string(), encode_map(with)));
        es.push(("env".to_string(), encode_map(env)));
        es.push(("continue-on-error".to_string(), encode_opt_bool(continue_on_error)));
        es.push(("timeout-minutes".to_string(), encode_opt_positive(timeout_minutes)));
        proof {
            reveal_strlit("name");
            reveal_strlit("id");
            reveal_strlit("if");
            reveal_strlit("uses");
            reveal_strlit("run");
            reveal_strlit("with");
            reveal_strlit("env");
            reveal_strlit("continue-on-error");
            reveal_strlit("timeout-minutes");
            let ks = step_keys();
            assert forall|i: int, j: int| 0 <= i < j < ks.len() implies ks[i]@ != ks[j]@ by {
                assert(ks[i]@.len() != ks[j]@.len() || ks[i]@[0] != ks[j]@[0] || ks[i]@[1] != ks[j]@[1]);
            }
            assert(laid_out(es@, ks));
            lemma_laid_out(es@, ks);
            assert(field(es@, ks[0]@) == Some(es@[0].1));
            assert(field(es@, ks[1]@) == Some(es@[1].1));
            assert(field(es@, ks[2]@) == Some(es@[2].1));
            assert(field(es@, ks[3]@) == Some(es@[3].1));
            assert(field(es@, ks[4]@) == Some(es@[4].1));
            assert(field(es@, ks[5]@) == Some(es@[5].1));
            assert(field(es@, ks[6]@) == Some(es@[6].1));
            assert(field(es@, ks[7]@) == Some(es@[7].1));
            assert(field(es@, ks[8]@) == Some(es@[8].1));
        }
        Node::Mapping(es)
    }
}

/// A strategy that can be written out and read back: a matrix, if any, is
/// not null, and the parallelism is positive.
pub open spec fn strategy_wf(s: StrategyView) -> bool {
    s.matrix != Some(Node::Null) && positive_opt(s.max_parallel)
}

impl Strategy {
    /// This strategy as a mapping.
    pub fn encode(self) -> (r: Node)
        requires
            strategy_wf(self@),
        ensures
            forall|m: Mode| #[trigger] strategy_of(r, m) == Ok::<StrategyView, ErrorKind>(self@),
    {
        let Strategy { matrix, fail_fast, max_parallel } = self;
        let mut es: Vec<(String, Node)> = Vec::new();
        let mx = match matrix {
            Some(x) => x,
            None => Node::Null,
        };
        es.push(("matrix".to_string(), mx));
        es.push(("fail-fast".to_string(), encode_opt_bool(fail_fast)));
        es.push(("max-parallel".to_string(), encode_opt_positive(max_parallel)));
        proof {
            reveal_strlit("matrix");
            reveal_strlit("fail-fast");
            reveal_strlit("max-parallel");
            let ks = strategy_keys();
            assert forall|i: int, j: int| 0 <= i < j < ks.len() implies ks[i]@ != ks[j]@ by {
                assert(ks[i]@.len() != ks[j]@.len() || ks[i]@[0] != ks[j]@[0]);
            }
            assert(laid_out(es@, ks));
            lemma_laid_out(es@, ks);
            assert(field(es@, ks[0]@) == Some(es@[0].1));
            assert(field(es@, ks[1]@) == Some(es@[1].1));
            assert(field(es@, ks[2]@) == Some(es@[2].1));
        }
        Node::Mapping(es)
    }
}

/// A trigger that can be written out and read back: event names are unique,
/// none is `schedule`, and no configuration is null; schedule entries are
/// valid cron expressions.
pub open spec fn trigger_wf(t: TriggerView) -> bool {
    match t {
        TriggerView::Events(v) => {
            &&& forall|i: int, j: int| 0 <= i < j < v.len() ==> v[i].name != v[j].name
            &&& forall|i: int| 0 <= i < v.len() ==> (#[trigger] v[i]).name != "schedule"@ && v[i].config != Some(Node::Null)
        },
        TriggerView::Schedule(v) => schedule_wf(v),
    }
}

/// Every entry of a schedule is a valid cron expression.
pub open spec fn schedule_wf(v: Seq<Seq<char>>) -> bool {
    forall|i: int| 0 <= i < v.len() ==> is_cron(#[trigger] v[i])
}

fn encode_schedule(v: Vec<CronSchedule>) -> (r: Vec<Node>)
    requires
        forall|i: int| 0 <= i < v@.len() ==> is_cron(#[trigger] v@[i]@),
    ensures
        forall|m: Mode| #[trigger] schedule_of(r@, m) == Ok::<Seq<Seq<char>>, ErrorKind>(cron_views(v@)),
{
    let ghost orig = v@;
    let mut items = v;
    let mut out: Vec<Node> = Vec::new();
    let ghost mut done: Seq<CronSchedule> = Seq::empty();
    assert(cron_views(done) =~= Seq::empty());
    while items.len() > 0
        invariant
            orig == done + items@,
            forall|i: int| 0 <= i < orig.len() ==> is_cron(#[trigger] orig[i]@),
            forall|m: Mode| #[trigger] schedule_of(out@, m) == Ok::<Seq<Seq<char>>, ErrorKind>(cron_views(done)),
        decreases items@.len(),
    {
        let c = items.remove(0);
        let ghost cv = c@;
        assert(orig[done.len() as int] == c);
        let CronSchedule { cron } = c;
        let mut es: Vec<(String, Node)> = Vec::new();
        es.push(("cron".to_string(), Node::Str(cron)));
        proof {
            reveal_strlit("cron");
            let ks = schedule_entry_keys();
            assert(distinct_names(ks));
            assert(laid_out(es@, ks));
            lemma_laid_out(es@, ks);
            assert(field(es@, ks[0]@) == Some(es@[0].1));
        }
        let entry = Node::Mapping(es);
        let ghost before = out@;
        out.push(entry);
        proof {
            assert(out@.drop_last() == before);
            assert(cron_views(done.push(c)) =~= cron_views(done).push(cv));
            assert forall|m: Mode| #[trigger] schedule_of(out@, m) == Ok::<Seq<Seq<char>>, ErrorKind>(
                cron_views(done.push(c)),
            ) by {
                assert(schedule_of(before, m) == Ok::<Seq<Seq<char>>, ErrorKind>(cron_views(done)));
                assert(cron_entry_of(entry, m) == Ok::<Seq<char>, ErrorKind>(cv));
            }
            done = done.push(c);
            assert(orig == done + items@);
        }
    }
    assert(done == orig);
    out
}

fn encode_events(v: Vec<Event>) -> (r: Vec<(String, Node)>)
    requires
        trigger_wf(TriggerView::Events(event_views(v@))),
    ensures
        event_map_of(r@) == event_views(v@),
        r@.len() == v@.len(),
        forall|i: int| 0 <= i < r@.len() ==> (#[trigger] r@[i]).0@ == v@[i].name@,
{
    let ghost orig = v@;
    let mut items = v;
    let mut out: Vec<(String, Node)> = Vec::new();
    let ghost mut done: Seq<Event> = Seq::empty();
    while items.len() > 0
        invariant
            orig == done + items@,
            trigger_wf(TriggerView::Events(event_views(orig))),
            out@.len() == done.len(),
            forall|i: int| 0 <= i < out@.len() ==> (#[trigger] out@[i]).0@ == done[i].name@,
            event_map_of(out@) == event_views(done),
        decreases items@.len(),
    {
        let e = items.remove(0);
        let ghost k = done.len() as int;
        assert(orig[k] == e);
        assert(event_views(orig)[k] == e@);
        assert(e@.config != Some(Node::Null));
        let ghost ev = e@;
        let Event { name, config } = e;
        let node = match config {
            Some(x) => x,
            None => Node::Null,
        };
        assert(payload_of(Some(node)) == ev.config);
        let ghost nv = name@;
        let ghost before = out@;
        out.push((name, node));
        proof {
            assert(event_map_of(out@)[k] == EventView { name: nv, config: ev.config });
            assert(out@.drop_last() == before);
            let old_done = done;
            done = done.push(e);
            assert(done[k] == e);
            assert(event_views(done)[k] == ev);
            assert forall|j: int| 0 <= j < out@.len() implies event_map_of(out@)[j] == event_views(done)[j] by {
                if j < k {
                    assert(out@[j] == before[j]);
                    assert(done[j] == old_done[j]);
                    assert(event_map_of(before)[j] == event_views(old_done)[j]);
                }
            }
            assert(event_map_of(out@) =~= event_views(done));
            assert(orig == done + items@);
        }
    }
    assert(done == orig);
    out
}

impl Trigger {
    /// This trigger as a node: a schedule as a mapping with one `schedule`
    /// key, events as a mapping from event names to configurations.
    pub fn encode(self) -> (r: Node)
        requires
            trigger_wf(self@),
        ensures
            forall|m: Mode| #[trigger] trigger_of(r, m) == Ok::<TriggerView, ErrorKind>(self@),
    {
        let ghost sv = self@;
        match self {
            Trigger::Schedule(v) => {
                let ghost tv = cron_views(v@);
                assert forall|i: int| 0 <= i < v@.len() implies is_cron(#[trigger] v@[i]@) by {
                    assert(tv[i] == v@[i]@);
                    assert(sv == TriggerView::Schedule(tv));
                    assert(trigger_wf(TriggerView::Schedule(tv)));
                    assert(schedule_wf(tv));
                    assert(tv.len() == v@.len());
                    assert(0 <= i < tv.len());
                    assert(is_cron(tv[i]));
                }
                let entries = encode_schedule(v);
                let mut es: Vec<(String, Node)> = Vec::new();
                es.push(("schedule".to_string(), Node::Sequence(entries)));
                proof {
                    reveal_strlit("schedule");
                    let ks = seq!["schedule"];
                    assert(distinct_names(ks));
                    assert(laid_out(es@, ks));
                    lemma_laid_out(es@, ks);
                    assert(has_key(es@, "schedule"@)) by {
                        assert(es@[0].0@ == "schedule"@);
                    }
                }
                Node::Mapping(es)
            },
            Trigger::Events(v) => {
                let ghost tv = event_views(v@);
                let es = encode_events(v);
                proof {
                    assert forall|i: int, j: int| 0 <= i < j < es@.len() implies (#[trigger] es@[i]).0@ != (
                    #[trigger] es@[j]).0@ by {
                        assert(tv[i].name != tv[j].name);
                    }
                    assert(!has_key(es@, "schedule"@)) by {
                        if has_key(es@, "schedule"@) {
                            let i = choose|i: int| 0 <= i < es@.len() && (#[trigger] es@[i]).0@ == "schedule"@;
                            assert(tv[i].name != "schedule"@);
                        }
                    }
                }
                Node::Mapping(es)
            },
        }
    }
}

/// A job that can be written out and read back: what the decoder checks of
/// a job holds of it.
pub open spec fn job_wf(j: JobView) -> bool {
    &&& forall|i: int| 0 <= i < j.needs.len() ==> is_job_id(#[trigger] j.needs[i])
    &&& ids_unique(j.needs)
    &&& j.runs_on.len() > 0
    &&& opt_pair_keys_unique(j.outputs)
    &&& pair_keys_unique(j.env)
    &&& forall|i: int| 0 <= i < j.steps.len() ==> step_wf(#[trigger] j.steps[i])
    &&& positive_opt(j.timeout_minutes)
    &&& j.container matches Some(c) ==> container_wf(c)
    &&& j.strategy matches Some(s) ==> strategy_wf(s)
}

fn encode_steps(v: Vec<Step>) -> (r: Node)
    requires
        forall|i: int| 0 <= i < v@.len() ==> step_wf(#[trigger] v@[i]@),
    ensures
        forall|m: Mode| #[trigger] steps_field(Some(r), m) == Ok::<Seq<StepView>, ErrorKind>(step_views(v@)),
{
    let ghost orig = v@;
    let mut items = v;
    let mut out: Vec<Node> = Vec::new();
    let ghost mut done: Seq<Step> = Seq::empty();
    assert(step_views(done) =~= Seq::empty());
    while items.len() > 0
        invariant
            orig == done + items@,
            forall|i: int| 0 <= i < orig.len() ==> step_wf(#[trigger] orig[i]@),
            forall|m: Mode| #[trigger] steps_of(out@, m) == Ok::<Seq<StepView>, ErrorKind>(step_views(done)),
        decreases items@.len(),
    {
        let x = items.remove(0);
        assert(orig[done.len() as int] == x);
        let ghost xv = x@;
        let node = x.encode();
        let ghost before = out@;
        out.push(node);
        proof {
            assert(out@.drop_last() == before);
            assert(step_views(done.push(x)) =~= step_views(done).push(xv));
            assert forall|m: Mode| #[trigger] steps_of(out@, m) == Ok::<Seq<StepView>, ErrorKind>(
                step_views(done.push(x)),
            ) by {
                assert(steps_of(before, m) == Ok::<Seq<StepView>, ErrorKind>(step_views(done)));
                assert(step_of(node, m) == Ok::<StepView, ErrorKind>(xv));
            }
            done = done.push(x);
            assert(orig == done + items@);
        }
    }
    assert(done == orig);
    Node::Sequence(out)
}

fn encode_services(v: Vec<Service>) -> (r: Node)
    ensures
        forall|m: Mode| #[trigger] services_field(Some(r), m) == Ok::<Seq<ServiceView>, ErrorKind>(service_views(v@)),
{
    let ghost orig = v@;
    let mut items = v;
    let mut out: Vec<Node> = Vec::new();
    let ghost mut done: Seq<Service> = Seq::empty();
    assert(service_views(done) =~= Seq::empty());
    while items.len() > 0
        invariant
            orig == done + items@,
            forall|m: Mode| #[trigger] services_of(out@, m) == Ok::<Seq<ServiceView>, ErrorKind>(service_views(done)),
        decreases items@.len(),
    {
        let x = items.remove(0);
        let ghost xv = x@;
        let node = x.encode();
        let ghost before = out@;
        out.push(node);
        proof {
            assert(out@.drop_last() == before);
            assert(service_views(done.push(x)) =~= service_views(done).push(xv));
            assert forall|m: Mode| #[trigger] services_of(out@, m) == Ok::<Seq<ServiceView>, ErrorKind>(
                service_views(done.push(x)),
            ) by {
                assert(services_of(before, m) == Ok::<Seq<ServiceView>, ErrorKind>(service_views(done)));
                assert(service_of(node, m) == Ok::<ServiceView, ErrorKind>(xv));
            }
            done = done.push(x);
            assert(orig == done + items@);
        }
    }
    assert(done == orig);
    Node::Sequence(out)
}

fn encode_opt_environment(o: Option<Environment>) -> (r: Node)
    ensures
        forall|m: Mode| #[trigger] opt_environment_of(Some(r), m) == Ok::<Option<EnvironmentView>, ErrorKind>(
            opt_environment(o),
        ),
{
    match o {
        Some(x) => x.encode(),
        None => Node::Null,
    }
}

fn encode_opt_defaults(o: Option<Defaults>) -> (r: Node)
    ensures
        forall|m: Mode| #[trigger] opt_defaults_of(Some(r), m) == Ok::<Option<DefaultsView>, ErrorKind>(
            opt_defaults(o),
        ),
{
    match o {
        Some(x) => x.encode(),
        None => Node::Null,
    }
}

fn encode_opt_container(o: Option<Container>) -> (r: Node)
    requires
        o matches Some(c) ==> container_wf(c@),
    ensures
        forall|m: Mode| #[trigger] opt_container_of(Some(r), m) == Ok::<Option<ContainerView>, ErrorKind>(
            opt_container(o),
        ),
{
    match o {
        Some(x) => x.encode(),
        None => Node::Null,
    }
}

fn encode_opt_strategy(o: Option<Strategy>) -> (r: Node)
    requires
        o matches Some(s) ==> strategy_wf(s@),
    ensures
        forall|m: Mode| #[trigger] opt_strategy_of(Some(r), m) == Ok::<Option<StrategyView>, ErrorKind>(
            opt_strategy(o),
        ),
{
    match o {
        Some(x) => x.encode(),
        None => Node::Null,
    }
}

impl Job {
    /// This job as a mapping.
    pub fn encode(self) -> (r: Node)
        requires
            job_wf(self@),
        ensures
            forall|m: Mode| #[trigger] job_of(r, m) == Ok::<JobView, ErrorKind>(self@),
    {
        let ghost jv = self@;
        let Job {
            name,
            needs,
            runs_on,
            environment,
            outputs,
            env,
            defaults,
            run_if,
            steps,
            timeout_minutes,
            continue_on_error,
            container,
            services,
            strategy,
        } = self;
        assert forall|i: int| 0 <= i < steps@.len() implies step_wf(#[trigger] steps@[i]@) by {
            assert(jv.steps[i] == steps@[i]@);
        }
        let mut es: Vec<(String, Node)> = Vec::new();
        es.push(("name".to_string(), encode_opt_text(name)));
        es.push(("needs".to_string(), encode_text_list(needs)));
        es.push(("runs-on".to_string(), encode_text_list(runs_on)));
        es.push(("environment".to_string(), encode_opt_environment(environment)));
        es.push(("outputs".to_string(), encode_opt_map(outputs)));
        es.push(("env".to_string(), encode_map(env)));
        es.push(("defaults".to_string(), encode_opt_defaults(defaults)));
        es.push(("if".to_string(), encode_opt_text(run_if)));
        es.push(("steps".to_string(), encode_steps(steps)));
        es.push(("timeout-minutes".to_string(), encode_opt_positive(timeout_minutes)));
        es.push(("continue-on-error".to_string(), encode_opt_bool(continue_on_error)));
        es.push(("container".to_string(), encode_opt_container(container)));
        es.push(("services".to_string(), encode_services(services)));
        es.push(("strategy".to_string(), encode_opt_strategy(strategy)));
        proof {
            reveal_strlit("name");
            reveal_strlit("needs");
            reveal_strlit("runs-on");
            reveal_strlit("environment");
            reveal_strlit("outputs");
            reveal_strlit("env");
            reveal_strlit("defaults");
            reveal_strlit("if");
            reveal_strlit("steps");
            reveal_strlit("timeout-minutes");
            reveal_strlit("continue-on-error");
            reveal_strlit("container");
            reveal_strlit("services");
            reveal_strlit("strategy");
            let ks = job_keys();
            assert forall|i: int, j: int| 0 <= i < j < ks.len() implies ks[i]@ != ks[j]@ by {
                assert(ks[i]@.len() != ks[j]@.len() || ks[i]@[0] != ks[j]@[0] || ks[i]@[1] != ks[j]@[1]);
            }
            assert(laid_out(es@, ks));
            lemma_laid_out(es@, ks);
            assert(field(es@, ks[0]@) == Some(es@[0].1));
            assert(field(es@, ks[1]@) == Some(es@[1].1));
            assert(field(es@, ks[2]@) == Some(es@[2].1));
            assert(field(es@, ks[3]@) == Some(es@[3].1));
            assert(field(es@, ks[4]@) == Some(es@[4].1));
            assert(field(es@, ks[5]@) == Some(es@[5].1));
            assert(field(es@, ks[6]@) == Some(es@[6].1));
            assert(field(es@, ks[7]@) == Some(es@[7].1));
            assert(field(es@, ks[8]@) == Some(es@[8].1));
            assert(field(es@, ks[9]@) == Some(es@[9].1));
            assert(field(es@, ks[10]@) == Some(es@[10].1));
            assert(field(es@, ks[11]@) == Some(es@[11].1));
            assert(field(es@, ks[12]@) == Some(es@[12].1));
            assert(field(es@, ks[13]@) == Some(es@[13].1));
            assert(needs_of(Some(es@[1].1)) == Ok::<Seq<Seq<char>>, ErrorKind>(jv.needs));
            assert(runs_on_of(Some(es@[2].1)) == Ok::<Seq<Seq<char>>, ErrorKind>(jv.runs_on));
        }
        Node::Mapping(es)
    }
}

/// A workflow that can be written out and read back: what the decoder
/// checks of a workflow holds of it.
pub open spec fn workflow_wf(w: WorkflowView) -> bool {
    &&& opt_pair_keys_unique(w.env)
    &&& trigger_wf(w.on)
    &&& ids_unique(job_ids(w.jobs))
    &&& forall|i: int| 0 <= i < w.jobs.len() ==> job_wf(#[trigger] w.jobs[i].1)
    &&& needs_exist(job_ids(w.jobs), job_needs(w.jobs))
    &&& acyclic(job_ids(w.jobs), job_needs(w.jobs))
}

fn encode_jobs(v: Vec<(String, Job)>) -> (r: Vec<(String, Node)>)
    requires
        ids_unique(job_ids(job_entry_views(v@))),
        forall|i: int| 0 <= i < v@.len() ==> job_wf((#[trigger] v@[i]).1@),
    ensures
        keys_unique(r@),
        forall|m: Mode| #[trigger] jobs_of(r@, m) == Ok::<Seq<(Seq<char>, JobView)>, ErrorKind>(job_entry_views(v@)),
{
    let ghost orig = v@;
    let mut items = v;
    let mut out: Vec<(String, Node)> = Vec::new();
    let ghost mut done: Seq<(String, Job)> = Seq::empty();
    assert(job_entry_views(done) =~= Seq::empty());
    while items.len() > 0
        invariant
            orig == done + items@,
            forall|i: int| 0 <= i < orig.len() ==> job_wf((#[trigger] orig[i]).1@),
            out@.len() == done.len(),
            forall|i: int| 0 <= i < out@.len() ==> (#[trigger] out@[i]).0@ == done[i].0@,
            forall|m: Mode| #[trigger] jobs_of(out@, m) == Ok::<Seq<(Seq<char>, JobView)>, ErrorKind>(job_entry_views(done)),
        decreases items@.len(),
    {
        let x = items.remove(0);
        assert(orig[done.len() as int] == x);
        let ghost xv = (x.0@, x.1@);
        let (id, job) = x;
        let node = job.encode();
        let ghost before = out@;
        out.push((id, node));
        proof {
            assert(out@.drop_last() == before);
            assert(job_entry_views(done.push(x)) =~= job_entry_views(done).push(xv));
            assert forall|m: Mode| #[trigger] jobs_of(out@, m) == Ok::<Seq<(Seq<char>, JobView)>, ErrorKind>(
                job_entry_views(done.push(x)),
            ) by {
                assert(jobs_of(before, m) == Ok::<Seq<(Seq<char>, JobView)>, ErrorKind>(job_entry_views(done)));
                assert(job_of(node, m) == Ok::<JobView, ErrorKind>(xv.1));
            }
            done = done.push(x);
            assert(orig == done + items@);
        }
    }
    assert(done == orig);
    assert forall|i: int, j: int| 0 <= i < j < out@.len() implies (#[trigger] out@[i]).0@ != (#[trigger] out@[j]).0@ by {
        assert(job_ids(job_entry_views(orig))[i] != job_ids(job_entry_views(orig))[j]);
    }
    out
}

impl Workflow {
    /// This workflow as a document. Reading the document back, in either
    /// mode, gives this workflow again.
    pub fn encode(self) -> (r: Node)
        requires
            workflow_wf(self@),
        ensures
            forall|m: Mode| #[trigger] workflow_of(r, m) == Ok::<WorkflowView, ErrorKind>(self@),
    {
        let ghost wv = self@;
        let Workflow { name, on, env, defaults, jobs } = self;
        assert forall|i: int| 0 <= i < jobs@.len() implies job_wf((#[trigger] jobs@[i]).1@) by {
            assert(wv.jobs[i].1 == jobs@[i].1@);
        }
        let mut es: Vec<(String, Node)> = Vec::new();
        es.push(("name".to_string(), encode_opt_text(name)));
        es.push(("on".to_string(), on.encode()));
        es.push(("env".to_string(), encode_opt_map(env)));
        es.push(("defaults".to_string(), encode_opt_defaults(defaults)));
        let ghost jobs_view = job_entry_views(jobs@);
        let js = encode_jobs(jobs);
        let ghost jsv = js@;
        es.push(("jobs".to_string(), Node::Mapping(js)));
        proof {
            reveal_strlit("name");
            reveal_strlit("on");
            reveal_strlit("env");
            reveal_strlit("defaults");
            reveal_strlit("jobs");
            let ks = workflow_keys();
            assert forall|i: int, j: int| 0 <= i < j < ks.len() implies ks[i]@ != ks[j]@ by {
                assert(ks[i]@.len() != ks[j]@.len() || ks[i]@[0] != ks[j]@[0]);
            }
            assert(laid_out(es@, ks));
            lemma_laid_out(es@, ks);
            assert(field(es@, ks[0]@) == Some(es@[0].1));
            assert(field(es@, ks[1]@) == Some(es@[1].1));
            assert(field(es@, ks[2]@) == Some(es@[2].1));
            assert(field(es@, ks[3]@) == Some(es@[3].1));
            assert(field(es@, ks[4]@) == Some(es@[4].1));
            assert(jobs_checked(jobs_view) == Ok::<Seq<(Seq<char>, JobView)>, ErrorKind>(jobs_view));
            assert forall|m: Mode| #[trigger] jobs_field(Some(es@[4].1), m) == Ok::<Seq<(Seq<char>, JobView)>, ErrorKind>(
                jobs_view,
            ) by {
                assert(jobs_of(jsv, m) == Ok::<Seq<(Seq<char>, JobView)>, ErrorKind>(jobs_view));
            }
            assert forall|m: Mode| #[trigger] on_field(Some(es@[1].1), m) == Ok::<TriggerView, ErrorKind>(wv.on) by {
                assert(trigger_of(es@[1].1, m) == Ok::<TriggerView, ErrorKind>(wv.on));
            }
        }
        Node::Mapping(es)
    }
}

} // verus!
