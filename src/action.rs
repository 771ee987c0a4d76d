use vstd::prelude::*;

verus! {

/// What an action does to the host: an opaque code that the engine stores and
/// hands back unchanged.
#[derive(Clone, Copy, Debug, PartialEq, Eq, Structural)]
pub struct Effect(pub u16);

/// The payload of a chord, executed by the outer layout engine.
#[derive(Clone, Copy, Debug, PartialEq, Eq, Structural)]
pub enum Action {
    Tap(Effect),
    TapHold(Effect, Effect),
}

} // verus!
