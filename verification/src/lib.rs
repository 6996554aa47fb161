//! A theming add-on for a GUI widget toolkit: a stylesheet is loaded from a
//! flat key/value text file, projected into the toolkit's typed environment,
//! and hot-reloaded when the backing file changes on disk.
//!
//! The library holds the verified core: the stylesheet data model, its
//! parser and serializer, the environment projection, the decorator's
//! reload state machine, and the watch-handle state machine. The host
//! toolkit's callback surface and all file and thread plumbing live outside.

use vstd::prelude::*;

pub mod codec;
pub mod environment;
pub mod loader;
pub mod style;
pub mod watch;

verus! {

/// Relies on `Box::leak`: the leaked string slice holds exactly the
/// characters of the boxed string handed in, with process lifetime.
#[verifier::external_body]
fn leak_boxed(from: String) -> (r: &'static str)
    ensures
        r@ == from@,
{
    Box::leak(from.into_boxed_str())
}

/// Bridge a runtime-discovered key name into a static key registry: the
/// returned slice lives for the rest of the process and holds exactly
/// the characters of the string handed in.
pub fn leak_string(from: String) -> (r: &'static str)
    ensures
        r@ == from@,
{
    leak_boxed(from)
}

} // verus!
