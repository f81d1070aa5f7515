//! Spatial input arbitration engine for a 3D interaction runtime.
//!
//! Input methods (pointers, hands, single-point tips) and input handlers
//! (objects guarded by a geometric field) are registered with an [`engine::Engine`].
//! Once per rendering frame the engine ranks the handlers for every method by
//! field distance, delivers input events in rank order until a handler captures
//! the method, and finally emits the frame lifecycle event.  A capture binds a
//! method exclusively to one handler across frames until it is released or one
//! of the two entities is destroyed.
//!
//! Field geometry, real-time scheduling and the wire transport live outside
//! this crate: the engine consumes plain values (integer fixed-point
//! coordinates, signed field distances, capture intents) and produces an exact
//! event log, so every dispatch decision is stated in contracts and proved.

use vstd::prelude::*;

pub mod capture;
pub mod codec;
pub mod datamap;
pub mod dispatch;
pub mod engine;
pub mod rank;
pub mod registry;
pub mod vecmath;

verus! {

/// Errors surfaced by the engine's mutation operations.
///
/// `UnknownId` rejects an operation naming a method, handler or field that is
/// not (or no longer) in the registry; `MapInvalid` rejects a datamap payload
/// whose bytes do not decode as a well-formed map.  Handler failures during
/// dispatch are contained per handler and never surface here.
#[derive(Clone, Copy, Debug, PartialEq, Eq, Structural)]
pub enum InputError {
    UnknownId,
    MapInvalid,
}

} // verus!
