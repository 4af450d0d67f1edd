//! The core of a distributed HTTP load generator.
//!
//! An operator declares task sets of weighted tasks ([`task`]). The planner
//! turns a task set into a user's plan ([`planner`]), and the scheduler drives
//! a user through its plan, from its start tasks through its steady tasks to
//! its stop tasks ([`scheduler`], with the draws of chance in [`random`]). The
//! pool deals the users to the task sets ([`pool`]) and its controller spawns
//! them, lets them run and shuts them down ([`controller`]). Requests are
//! counted per request name ([`stats`], [`histogram`], [`request`]). A manager
//! coordinates workers and adds up their statistics ([`coordinator`],
//! [`worker`], [`protocol`]). A run starts from a checked configuration
//! ([`config`]) and ends with an exit code ([`outcome`]).
//!
//! The schedulers and controllers decide and leave the acting to their
//! caller: they take in what happened and tell what to do next. Running task
//! functions, sleeping, and reading channels and connections is up to the
//! caller.

pub mod config;
pub mod controller;
pub mod coordinator;
pub mod histogram;
pub mod outcome;
pub mod planner;
pub mod pool;
pub mod protocol;
pub mod random;
pub mod request;
pub mod scheduler;
pub mod stats;
pub mod task;
pub mod weights;
pub mod worker;
