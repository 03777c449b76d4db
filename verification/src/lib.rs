//! A matchmaking relay library: a length-prefixed message codec, a
//! player/duel/request data model, and a matchmaking controller that
//! applies one event at a time to the shared registry.

use vstd::prelude::*;

pub mod controller;
pub mod messagebuilder;
pub mod model;
pub mod numtext;
pub mod state;
pub mod utils;

verus! {

} // verus!
