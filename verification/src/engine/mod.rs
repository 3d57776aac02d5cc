//! Engine selection.
//!
//! Exactly one backend is compiled into any given binary. There is no runtime
//! switch and no probing.
use vstd::prelude::*;
use crate::engine::null::NullEngine;

pub mod null;
pub mod sherpa;

verus! {

/// Build the backend this library comes with.
pub fn compiled_in() -> (engine: NullEngine)
    ensures
        engine == NullEngine,
{
    NullEngine
}

} // verus!
