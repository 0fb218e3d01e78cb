use vstd::prelude::*;

verus! {

/// How an animation moves from its start to its end value over time.
#[derive(Clone, Copy, Debug, PartialEq, Eq, Structural)]
pub enum Easing {
    Linear,
    EaseOut,
    EaseInOut,
    Spring,
}

} // verus!
