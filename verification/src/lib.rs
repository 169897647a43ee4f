//! Verified core of a small HTTP front-end that forwards user-supplied text
//! prompts to an upstream text-generation service and relays the answer.
//!
//! The pieces that touch the network (the HTTP listener, the outbound client,
//! the environment) live outside this crate; everything here is plain
//! computation: deciding whether an inbound body is acceptable, building the
//! outbound request, and relaying the upstream bytes.

use vstd::prelude::*;

pub mod json;
pub mod proxy;
pub mod upstream;

verus! {

/// The fixed liveness string served at `GET /`.
pub open spec fn greeting() -> Seq<char> {
    "Ahhh so you're a nerd I see!!!!"@
}

/// Handler body for `GET /`: always returns the same fixed string.
pub fn index() -> (r: &'static str)
    ensures
        r@ == greeting(),
{
    "Ahhh so you're a nerd I see!!!!"
}

} // verus!
