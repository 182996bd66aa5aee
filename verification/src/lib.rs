//! Decision logic of a terminal coding agent: what it compacts, retries, edits,
//! gates, reports and remembers. Every function here is pure state and text; the
//! surrounding program reads files, runs processes and talks to the model.
use vstd::prelude::*;

pub mod agent_loop;
pub mod builder;
pub mod compression;
pub mod order;
pub mod pattern;
pub mod platform;
pub mod prompt;
pub mod recovery;
pub mod registry;
pub mod review;
pub mod runner;
pub mod session;
pub mod splice;
pub mod text;
pub mod tools;
