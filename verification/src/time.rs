//! Whether the current execution context may read the system clock.
use vstd::prelude::*;

verus! {

/// Whether this execution context is not a Web Audio worklet, given whether
/// the JavaScript environment reports one (a worklet defines the global
/// `sampleRate`). Reading the clock in a worklet panics, so callers only
/// read it when this returns `true`.
pub fn is_not_worklet(is_audio_worklet: bool) -> (r: bool)
    ensures
        r == !is_audio_worklet,
{
    !is_audio_worklet
}

} // verus!
