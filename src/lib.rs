//! Decoding and validation of CI workflow documents.
//!
//! An untyped document tree (`Node`) is turned into a strict, canonical
//! `Workflow`, resolving the shape polymorphism of the format (a field written
//! as one value, a list, or a detailed mapping) and rejecting documents that
//! break its structural rules: bad cron expressions, malformed or dangling job
//! references, dependency cycles, repeated keys, and, in strict mode, unknown
//! keys.
pub mod cron;
pub mod decode;
pub mod encode;
pub mod error;
pub mod fields;
pub mod graph;
pub mod ident;
pub mod laws;
pub mod model;
pub mod node;
pub mod text;
pub mod yaml;

pub use cron::valid_cron;
pub use decode::{decode_container, decode_trigger};
pub use error::{DecodeError, ErrorKind, Mode};
pub use fields::decode_one_or_many;
pub use graph::dependency_order;
pub use ident::valid_job_id;
pub use model::{
    Container, CronSchedule, DefaultSettings, Defaults, Environment, Event, Job, Service, Step, Strategy, Trigger,
    Workflow,
};
pub use node::Node;
pub use yaml::ParseError;
