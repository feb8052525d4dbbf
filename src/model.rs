use vstd::prelude::*;
use crate::fields::{opt_view, pair_views, texts};
use crate::node::Node;

verus! {

/// One cron expression of a schedule.
#[derive(Debug)]
pub struct CronSchedule {
    pub cron: String,
}

/// An event that triggers a workflow, with its configuration if one was given.
#[derive(Debug)]
pub struct Event {
    pub name: String,
    pub config: Option<Node>,
}

/// When a workflow runs: on events, or on a schedule.
#[derive(Debug)]
pub enum Trigger {
    Events(Vec<Event>),
    Schedule(Vec<CronSchedule>),
}

#[derive(Debug)]
pub struct DefaultSettings {
    pub shell: Option<String>,
    pub working_directory: Option<String>,
}

/// Default shell and working directory for the run steps.
#[derive(Debug)]
pub struct Defaults {
    pub run: DefaultSettings,
}

/// The deployment environment that a job references.
#[derive(Debug)]
pub struct Environment {
    pub name: String,
    pub url: Option<String>,
}

/// A build matrix and how its combinations run.
#[derive(Debug)]
pub struct Strategy {
    pub matrix: Option<Node>,
    pub fail_fast: Option<bool>,
    pub max_parallel: Option<i64>,
}

/// One step of a job: an action to use or a command to run.
#[derive(Debug)]
pub struct Step {
    pub name: Option<String>,
    pub id: Option<String>,
    pub run_if: Option<String>,
    pub uses: Option<String>,
    pub run: Option<String>,
    pub with: Vec<(String, String)>,
    pub env: Vec<(String, String)>,
    pub continue_on_error: Option<bool>,
    pub timeout_minutes: Option<i64>,
}

/// The container that a job's steps run in.
#[derive(Debug)]
pub struct Container {
    pub name: String,
    pub credentials: Option<Vec<(String, String)>>,
    pub env: Option<Vec<(String, String)>>,
    pub ports: Vec<String>,
    pub volumes: Vec<String>,
    pub options: Vec<String>,
}

/// A service container that runs beside a job.
#[derive(Debug)]
pub struct Service {
    pub name: String,
    pub ports: Vec<String>,
}

/// One unit of work of a workflow.
#[derive(Debug)]
pub struct Job {
    pub name: Option<String>,
    pub needs: Vec<String>,
    pub runs_on: Vec<String>,
    pub environment: Option<Environment>,
    pub outputs: Option<Vec<(String, String)>>,
    pub env: Vec<(String, String)>,
    pub defaults: Option<Defaults>,
    pub run_if: Option<String>,
    pub steps: Vec<Step>,
    pub timeout_minutes: Option<i64>,
    pub strategy: Option<Strategy>,
    pub continue_on_error: Option<bool>,
    pub container: Option<Container>,
    pub services: Vec<Service>,
}

/// A decoded workflow.
#[derive(Debug)]
pub struct Workflow {
    pub name: Option<String>,
    pub on: Trigger,
    pub env: Option<Vec<(String, String)>>,
    pub defaults: Option<Defaults>,
    pub jobs: Vec<(String, Job)>,
}

pub open spec fn opt_pairs(o: Option<Vec<(String, String)>>) -> Option<Seq<(Seq<char>, Seq<char>)>> {
    match o {
        Some(v) => Some(pair_views(v@)),
        None => None,
    }
}

pub struct ContainerView {
    pub name: Seq<char>,
    pub credentials: Option<Seq<(Seq<char>, Seq<char>)>>,
    pub env: Option<Seq<(Seq<char>, Seq<char>)>>,
    pub ports: Seq<Seq<char>>,
    pub volumes: Seq<Seq<char>>,
    pub options: Seq<Seq<char>>,
}

impl View for Container {
    type V = ContainerView;

    open spec fn view(&self) -> ContainerView {
        ContainerView {
            name: self.name@,
            credentials: opt_pairs(self.credentials),
            env: opt_pairs(self.env),
            ports: texts(self.ports@),
            volumes: texts(self.volumes@),
            options: texts(self.options@),
        }
    }
}

pub struct EnvironmentView {
    pub name: Seq<char>,
    pub url: Option<Seq<char>>,
}

impl View for Environment {
    type V = EnvironmentView;

    open spec fn view(&self) -> EnvironmentView {
        EnvironmentView { name: self.name@, url: opt_view(self.url) }
    }
}

pub struct DefaultsView {
    pub shell: Option<Seq<char>>,
    pub working_directory: Option<Seq<char>>,
}

impl View for Defaults {
    type V = DefaultsView;

    open spec fn view(&self) -> DefaultsView {
        DefaultsView { shell: opt_view(self.run.shell), working_directory: opt_view(self.run.working_directory) }
    }
}

pub struct ServiceView {
    pub name: Seq<char>,
    pub ports: Seq<Seq<char>>,
}

impl View for Service {
    type V = ServiceView;

    open spec fn view(&self) -> ServiceView {
        ServiceView { name: self.name@, ports: texts(self.ports@) }
    }
}

pub struct StrategyView {
    pub matrix: Option<Node>,
    pub fail_fast: Option<bool>,
    pub max_parallel: Option<i64>,
}

impl View for Strategy {
    type V = StrategyView;

    open spec fn view(&self) -> StrategyView {
        StrategyView { matrix: self.matrix, fail_fast: self.fail_fast, max_parallel: self.max_parallel }
    }
}

pub struct StepView {
    pub name: Option<Seq<char>>,
    pub id: Option<Seq<char>>,
    pub run_if: Option<Seq<char>>,
    pub uses: Option<Seq<char>>,
    pub run: Option<Seq<char>>,
    pub with: Seq<(Seq<char>, Seq<char>)>,
    pub env: Seq<(Seq<char>, Seq<char>)>,
    pub continue_on_error: Option<bool>,
    pub timeout_minutes: Option<i64>,
}

impl View for Step {
    type V = StepView;

    open spec fn view(&self) -> StepView {
        StepView {
            name: opt_view(self.name),
            id: opt_view(self.id),
            run_if: opt_view(self.run_if),
            uses: opt_view(self.uses),
            run: opt_view(self.run),
            with: pair_views(self.with@),
            env: pair_views(self.env@),
            continue_on_error: self.continue_on_error,
            timeout_minutes: self.timeout_minutes,
        }
    }
}

impl View for CronSchedule {
    type V = Seq<char>;

    open spec fn view(&self) -> Seq<char> {
        self.cron@
    }
}

pub struct EventView {
    pub name: Seq<char>,
    pub config: Option<Node>,
}

impl View for Event {
    type V = EventView;

    open spec fn view(&self) -> EventView {
        EventView { name: self.name@, config: self.config }
    }
}

pub enum TriggerView {
    Events(Seq<EventView>),
    Schedule(Seq<Seq<char>>),
}

pub open spec fn event_views(v: Seq<Event>) -> Seq<EventView> {
    v.map_values(|e: Event| e@)
}

pub open spec fn cron_views(v: Seq<CronSchedule>) -> Seq<Seq<char>> {
    v.map_values(|c: CronSchedule| c@)
}

impl View for Trigger {
    type V = TriggerView;

    open spec fn view(&self) -> TriggerView {
        match self {
            Trigger::Events(v) => TriggerView::Events(event_views(v@)),
            Trigger::Schedule(v) => TriggerView::Schedule(cron_views(v@)),
        }
    }
}

pub open spec fn step_views(v: Seq<Step>) -> Seq<StepView> {
    v.map_values(|x: Step| x@)
}

pub open spec fn service_views(v: Seq<Service>) -> Seq<ServiceView> {
    v.map_values(|x: Service| x@)
}

pub open spec fn opt_environment(o: Option<Environment>) -> Option<EnvironmentView> {
    match o {
        Some(x) => Some(x@),
        None => None,
    }
}

pub open spec fn opt_defaults(o: Option<Defaults>) -> Option<DefaultsView> {
    match o {
        Some(x) => Some(x@),
        None => None,
    }
}

pub open spec fn opt_strategy(o: Option<Strategy>) -> Option<StrategyView> {
    match o {
        Some(x) => Some(x@),
        None => None,
    }
}

pub open spec fn opt_container(o: Option<Container>) -> Option<ContainerView> {
    match o {
        Some(x) => Some(x@),
        None => None,
    }
}

pub struct JobView {
    pub name: Option<Seq<char>>,
    pub needs: Seq<Seq<char>>,
    pub runs_on: Seq<Seq<char>>,
    pub environment: Option<EnvironmentView>,
    pub outputs: Option<Seq<(Seq<char>, Seq<char>)>>,
    pub env: Seq<(Seq<char>, Seq<char>)>,
    pub defaults: Option<DefaultsView>,
    pub run_if: Option<Seq<char>>,
    pub steps: Seq<StepView>,
    pub timeout_minutes: Option<i64>,
    pub continue_on_error: Option<bool>,
    pub container: Option<ContainerView>,
    pub services: Seq<ServiceView>,
    pub strategy: Option<StrategyView>,
}

impl View for Job {
    type V = JobView;

    open spec fn view(&self) -> JobView {
        JobView {
            name: opt_view(self.name),
            needs: texts(self.needs@),
            runs_on: texts(self.runs_on@),
            environment: opt_environment(self.environment),
            outputs: opt_pairs(self.outputs),
            env: pair_views(self.env@),
            defaults: opt_defaults(self.defaults),
            run_if: opt_view(self.run_if),
            steps: step_views(self.steps@),
            timeout_minutes: self.timeout_minutes,
            continue_on_error: self.continue_on_error,
            container: opt_container(self.container),
            services: service_views(self.services@),
            strategy: opt_strategy(self.strategy),
        }
    }
}

pub struct WorkflowView {
    pub name: Option<Seq<char>>,
    pub env: Option<Seq<(Seq<char>, Seq<char>)>>,
    pub defaults: Option<DefaultsView>,
    pub on: TriggerView,
    pub jobs: Seq<(Seq<char>, JobView)>,
}

pub open spec fn job_entry_views(v: Seq<(String, Job)>) -> Seq<(Seq<char>, JobView)> {
    v.map_values(|e: (String, Job)| (e.0@, e.1@))
}

impl View for Workflow {
    type V = WorkflowView;

    open spec fn view(&self) -> WorkflowView {
        WorkflowView {
            name: opt_view(self.name),
            env: opt_pairs(self.env),
            defaults: opt_defaults(self.defaults),
            on: self.on@,
            jobs: job_entry_views(self.jobs@),
        }
    }
}

} // verus!
