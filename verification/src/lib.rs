//! Verified core of a modular application-startup framework.
use vstd::prelude::*;

pub mod component_plan;
pub mod condition;
pub mod container;
pub mod config;
pub mod events;
pub mod extensions;
pub mod freeze_cell;
pub mod logging;
pub mod messages;
pub mod graph;
pub mod index;
pub mod names;
pub mod plugin_order;
pub mod security;
pub mod settings;
pub mod text;
pub mod type_key;

verus! {

} // verus!
