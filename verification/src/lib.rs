use vstd::prelude::*;

pub mod auto_source;
pub mod caption;
pub mod cue_shape;
pub mod edit;
pub mod ids;
pub mod text;
pub mod timing;
pub mod time;
pub mod timeline;
pub mod project;
pub mod projection;
pub mod history;
pub mod inspector;
pub mod lanes;
pub mod progress;
pub mod error;
pub mod export;
pub mod gesture;
pub mod format;
pub mod reflow;
pub mod roundtrip;
pub mod segment;
pub mod srt;
pub mod subtitle;
pub mod vtt;
pub mod wire;

verus! {
}
