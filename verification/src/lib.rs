//! Core logic of a live capture viewer: black-bar detection on BGRA frames,
//! the crop-analysis state machine that debounces detections, and the rules
//! that pair a video source with an audio source.
use vstd::prelude::*;

pub mod band_laws;
pub mod bars;
pub mod crop;
pub mod devices;
pub mod selection;
pub mod titles;

verus! {

} // verus!
