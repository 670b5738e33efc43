//! The core of a runtime for the Open Workflow Specification.
//!
//! The library holds the logic of the runtime: the expression language, the rules
//! for workflow definitions, events and their matching, scheduling, lifecycle
//! events, telemetry, execution records and conformance scenarios. Input and
//! output stay outside: functions take and return plain values.
pub mod builder;
pub mod clock;
pub mod conformance;
pub mod conformance_laws;
pub mod context;
pub mod definition;
pub mod dict;
pub mod document;
pub mod double;
pub mod error;
pub mod events;
pub mod expressions;
pub mod identity;
pub mod json;
pub mod lifecycle;
pub mod model;
pub mod number;
pub mod phase;
pub mod policy;
pub mod runtime_laws;
pub mod schedule;
pub mod secret;
pub mod service;
pub mod store;
pub mod telemetry;
pub mod telemetry_laws;
pub mod testing;
pub mod text;
pub mod validate;
pub mod value;
