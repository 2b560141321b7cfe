//! Builds the transitive module-dependency graph of a set of JavaScript or
//! TypeScript entry files: for every reachable file it determines what the
//! file imports, resolves each import specifier to a concrete file, and
//! recurses into the dependencies.  The output is a flat edge list
//! (source path, resolved dependency path).
//!
//! The core is the `Runtime` state machine in [`runtime`]: it owns the module
//! map (one terminal `ModuleState` per canonical path, written once and never
//! overwritten), the per-path cache-state table that prevents duplicate
//! construction of the same module, and the recursive resolve/build
//! orchestration with star-export propagation.  File reads are performed by
//! the caller, which drives the machine through `step`.

pub mod collector;
pub mod edge;
pub mod parse;
pub mod paths;
pub mod record;
pub mod resolve;
pub mod runtime;
pub mod service;
