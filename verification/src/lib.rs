//! Compiler for declarative configuration manifests: parses resource
//! declarations and ordering relations into an abstract syntax form, validates
//! cross references, and builds a cycle-free dependency graph whose
//! topological order is the safe application order.

pub mod ast;
pub mod errors;
pub mod grammar;
pub mod graph;
pub mod parse;
pub mod plan;
pub mod pstring;
pub mod render;
pub mod resources;
pub mod roundtrip;
pub mod scan;
pub mod validate;
pub mod wellformed;
