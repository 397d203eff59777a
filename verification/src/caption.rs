//! Captions: timed subtitle lines carried by ordinary text clips, gathered
//! into groups that share a style template, segmentation rules, provenance and
//! playback highlighting.

pub mod cue;
pub mod group;
pub mod highlight;
pub mod layout;
pub mod spec;
pub mod template;
