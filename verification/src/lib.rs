//! Semantic-analysis core of the Volt hardware description language:
//! name suggestions, attribute policy, timing-constraint forms, driver
//! analysis, clock-domain inference and compile-time evaluation.

pub mod ast;
pub mod text;
pub mod attrs;
pub mod suggest;
pub mod names;
pub mod defs;
pub mod timing;
pub mod constraints;
pub mod constraint_walk;
pub mod drivers;
pub mod consteval;
pub mod handshake;
pub mod domain;
pub mod resolve;
pub mod manifest_search;
pub mod paths;
pub mod extern_source;
