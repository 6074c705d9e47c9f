//! A task-tracking library: the binary record format of a task, the steps
//! of the create, update and view operations against a key-value store, and
//! a model of that store over which the service's laws are proved.

pub mod codec;
pub mod error;
pub mod model;
pub mod service;
