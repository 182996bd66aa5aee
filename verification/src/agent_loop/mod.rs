//! The loop in which the model's tool calls are carried out.
use vstd::prelude::*;

pub mod dispatch;
pub mod message;
pub mod tools;
