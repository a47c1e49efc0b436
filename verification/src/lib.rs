//! TeslaCam footage library: MP4 box walking, H.264 SEI telemetry
//! extraction, the SEI protobuf message, and clip/event organisation.
#![allow(unused_imports)]

use vstd::prelude::*;

pub mod bytes;
pub mod clips;
pub mod encoding;
pub mod events;
pub mod mp4;
pub mod nal;
pub mod period;
pub mod proto;
pub mod report;
pub mod scanner;
pub mod sessions;
pub mod sei;
pub mod text;
pub mod timestamp;

verus! {

} // verus!
