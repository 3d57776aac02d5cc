//! Sample-rate conversion to the 16 kHz the ASR model expects.
//!
//! Downsampling filters before it interpolates, so energy above the new Nyquist
//! is attenuated instead of folding back into the speech band. Upsampling needs
//! no such filter and interpolates directly.
use vstd::prelude::*;

verus! {

/// Target rate for every recognizer in this sidecar.
pub const TARGET_RATE: u32 = 16_000;

/// Highest input rate accepted. Above this the input is not plausible audio.
pub const MAX_INPUT_RATE: u32 = 768_000;

/// How samples come to the target rate.
#[derive(Debug, Clone, Copy, PartialEq, Eq)]
pub enum Plan {
    /// They are there already.
    Keep,
    /// By interpolation.
    Interpolate,
    /// By interpolation, once a low-pass filter took what would alias.
    FilterAndInterpolate,
}

/// How `len` samples at `src_rate` come to [`TARGET_RATE`].
pub fn plan(len: usize, src_rate: u32) -> (plan: Plan)
    requires
        0 < src_rate <= MAX_INPUT_RATE,
    ensures
        plan == (if src_rate == TARGET_RATE || len == 0 {
            Plan::Keep
        } else if src_rate > TARGET_RATE {
            Plan::FilterAndInterpolate
        } else {
            Plan::Interpolate
        }),
{
    if src_rate == TARGET_RATE || len == 0 {
        return Plan::Keep;
    }
    if src_rate > TARGET_RATE {
        return Plan::FilterAndInterpolate;
    }
    Plan::Interpolate
}

} // verus!
