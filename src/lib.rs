//! Verified core of the strata scripting configuration bridge.
//!
//! The script runtime is modelled by plain values: a script value tree, a
//! namespace of modules, a typed configuration converted from a value tree,
//! and a table of keybindings and window rules whose actions are handles into
//! the runtime.

pub mod value;
pub mod registry;
pub mod config;
pub mod bindings;
pub mod host;
