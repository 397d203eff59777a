//! Opaque ids for the entities captions refer to.

use vstd::prelude::*;

verus! {

/// A media pool entry.
#[derive(Debug, Clone, Copy, PartialEq, Eq, Hash, Structural)]
pub struct MediaId(pub u64);

/// A caption group.
#[derive(Debug, Clone, Copy, PartialEq, Eq, Hash, Structural)]
pub struct CaptionGroupId(pub u64);

/// A timeline clip.
#[derive(Debug, Clone, Copy, PartialEq, Eq, Hash, Structural)]
pub struct ClipId(pub u64);

/// A timeline track.
#[derive(Debug, Clone, Copy, PartialEq, Eq, Hash, Structural)]
pub struct TrackId(pub u64);

impl MediaId {
    pub fn from_raw(raw: u64) -> (id: MediaId)
        ensures
            id.0 == raw,
    {
        MediaId(raw)
    }

    pub fn raw(&self) -> (r: u64)
        ensures
            r == self.0,
    {
        self.0
    }
}

impl CaptionGroupId {
    pub fn from_raw(raw: u64) -> (id: CaptionGroupId)
        ensures
            id.0 == raw,
    {
        CaptionGroupId(raw)
    }

    pub fn raw(&self) -> (r: u64)
        ensures
            r == self.0,
    {
        self.0
    }
}

impl ClipId {
    pub fn from_raw(raw: u64) -> (id: ClipId)
        ensures
            id.0 == raw,
    {
        ClipId(raw)
    }

    pub fn raw(&self) -> (r: u64)
        ensures
            r == self.0,
    {
        self.0
    }
}

impl TrackId {
    pub fn from_raw(raw: u64) -> (id: TrackId)
        ensures
            id.0 == raw,
    {
        TrackId(raw)
    }

    pub fn raw(&self) -> (r: u64)
        ensures
            r == self.0,
    {
        self.0
    }
}

} // verus!
