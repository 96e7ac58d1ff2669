//! An alignment constraint engine for document layout.
//!
//! Content scattered across a table, a stack, or an inline run can ask to
//! share a coordinate on one axis by registering *align points* — named (or
//! unique) anchors.  The engine owns a graph of directed interval constraints
//! between those anchors and the *zone separators* (the boundaries of layout
//! regions), solves it by an iterative relaxation, and exposes the resolved
//! positions together with each alignment group's remaining slack.
//!
//! All lengths are fixed-point values carried in `i64`; arithmetic saturates
//! at the ends of that range.  Malformed constraint sets never fail the
//! caller: a cycle, a node the first separator does not reach, or a
//! relaxation that exhausts its pass budget all degrade to the all-zero
//! assignment.  Committing zeros rather than a half-relaxed state on an
//! exhausted budget is a deliberate policy: a result is then always either
//! constraint-satisfying or recognizably degenerate, never silently
//! inconsistent.

#![verifier::loop_isolation(false)]

use vstd::prelude::*;

pub use engine::{AlignmentEngine, AlignmentInfos};
pub use id::{AlignPointElem, AlignPointId, UniqueIdSource};
pub use inplace::AlignPointsEngine;
pub use length::Extent;

pub mod engine;
pub mod graph;
pub mod groups;
pub mod id;
pub mod inplace;
pub mod laws;
pub mod length;
pub mod solve;
