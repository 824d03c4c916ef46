//! Service supervision for an init system.
//!
//! `service` holds the static definitions and the per-service runtime record;
//! `registry` the set of instances and the state machine that start, stop and
//! process exits drive; `process` the signals and child collection that need
//! the operating system; `protocol` the control-plane messages and their wire
//! encoding; `control` the mapping from requests to registry operations.
//! `resolver`, `parser` and `package` serve the package manager and the shell.
pub mod control;
pub mod package;
pub mod parser;
pub mod process;
pub mod protocol;
pub mod registry;
pub mod resolver;
pub mod service;
pub mod text;
