//! Rate-variant generation for rhythm-game beatmaps: parsing, retiming, and
//! serialization of the beatmap text format, and the pure core of the audio
//! time-stretch pipeline.

use vstd::prelude::*;

pub mod audio;
pub mod beatmap;
pub mod numbers;
pub mod text;
pub mod util;

verus! {

} // verus!
