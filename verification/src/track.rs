//! Per-track details, derived on demand from a validated table of contents
//! and never stored.

use vstd::prelude::*;

use crate::Duration;
use crate::sub_sat;

verus! {

/// Where a track sits on its disc.
#[derive(Debug, Clone, Copy, PartialEq, Eq, Hash, Structural)]
pub enum TrackPosition {
    /// Out of range, including the pre-gap pseudo-track.
    Invalid,
    /// The first of several tracks.
    First,
    /// Neither first nor last.
    Middle,
    /// The last of several tracks.
    Last,
    /// The only track.
    Only,
}

/// The position of track `num` on a disc of `len` tracks.
pub open spec fn spec_track_position(num: int, len: int) -> TrackPosition {
    if num == 0 || len < num {
        TrackPosition::Invalid
    } else if num == 1 {
        if len == 1 {
            TrackPosition::Only
        } else {
            TrackPosition::First
        }
    } else if num == len {
        TrackPosition::Last
    } else {
        TrackPosition::Middle
    }
}

/// Classify track `num` of `len`.
pub(crate) fn track_position(num: usize, len: usize) -> (r: TrackPosition)
    ensures
        r == spec_track_position(num as int, len as int),
{
    if num == 0 || len < num {
        TrackPosition::Invalid
    } else if num == 1 {
        if len == 1 {
            TrackPosition::Only
        } else {
            TrackPosition::First
        }
    } else if num == len {
        TrackPosition::Last
    } else {
        TrackPosition::Middle
    }
}

impl TrackPosition {
    /// Whether the position is anything but [`TrackPosition::Invalid`].
    pub fn is_valid(self) -> (r: bool)
        ensures
            r == (self != TrackPosition::Invalid),
    {
        !matches!(self, TrackPosition::Invalid)
    }

    /// Whether the track opens the disc.
    pub fn is_first(self) -> (r: bool)
        ensures
            r == (self == TrackPosition::First || self == TrackPosition::Only),
    {
        matches!(self, TrackPosition::First | TrackPosition::Only)
    }

    /// Whether the track closes the disc.
    pub fn is_last(self) -> (r: bool)
        ensures
            r == (self == TrackPosition::Last || self == TrackPosition::Only),
    {
        matches!(self, TrackPosition::Last | TrackPosition::Only)
    }

    /// The variant's name.
    pub fn as_str(self) -> (r: &'static str)
        ensures
            self == TrackPosition::Invalid ==> r@ == "Invalid"@,
            self == TrackPosition::First ==> r@ == "First"@,
            self == TrackPosition::Middle ==> r@ == "Middle"@,
            self == TrackPosition::Last ==> r@ == "Last"@,
            self == TrackPosition::Only ==> r@ == "Only"@,
    {
        match self {
            TrackPosition::Invalid => "Invalid",
            TrackPosition::First => "First",
            TrackPosition::Middle => "Middle",
            TrackPosition::Last => "Last",
            TrackPosition::Only => "Only",
        }
    }
}

// ---------------------------------------------------------------------------
// A single track.
// ---------------------------------------------------------------------------
/// The mathematical content of a [`Track`].
#[verifier::ext_equal]
pub ghost struct TrackView {
    /// The track number; zero marks the pre-gap pseudo-track.
    pub num: u8,
    /// Where the track sits on the disc.
    pub pos: TrackPosition,
    /// The first sector of the track.
    pub from: u32,
    /// One past the last sector of the track.
    pub to: u32,
}

impl TrackView {
    /// Every track the library hands out starts at or past the mandatory
    /// 150-sector disc leadin.
    pub open spec fn wf(self) -> bool {
        150 <= self.from
    }
}

/// One audio track: its number, disc position, and half-open sector range.
#[derive(Debug, Clone, Copy, PartialEq, Eq, Hash, Structural)]
pub struct Track {
    pub(crate) num: u8,
    pub(crate) pos: TrackPosition,
    pub(crate) from: u32,
    pub(crate) to: u32,
}

impl View for Track {
    type V = TrackView;

    closed spec fn view(&self) -> TrackView {
        TrackView { num: self.num, pos: self.pos, from: self.from, to: self.to }
    }
}

impl Track {
    /// Assemble a track from its parts.
    pub(crate) fn assemble(num: u8, pos: TrackPosition, from: u32, to: u32) -> (r: Track)
        ensures
            r@ == (TrackView { num, pos, from, to }),
    {
        Track { num, pos, from, to }
    }
}

/// Minutes, seconds and frames of a logical block address.
pub open spec fn spec_lba_to_msf(sectors: u32) -> (u32, u8, u8) {
    ((sectors / 75) / 60, ((sectors / 75) % 60) as u8, (sectors % 75) as u8)
}

/// Convert a logical block address to minutes, seconds and frames.
fn lba_to_msf(sectors: u32) -> (r: (u32, u8, u8))
    ensures
        r == spec_lba_to_msf(sectors),
{
    let mut s = sectors / 75;
    let f = (sectors % 75) as u8;
    let m = s / 60;
    s = s % 60;
    (m, s as u8, f)
}

impl Track {
    /// The equivalent raw PCM byte size: 2352 bytes per sector.
    pub fn bytes(self) -> (r: u64)
        ensures
            r == sub_sat(self@.to, self@.from) as u64 * 2352,
    {
        self.sectors() as u64 * 2352
    }

    /// The track duration in sectors.
    pub fn duration(&self) -> (r: Duration)
        ensures
            r@ == sub_sat(self@.to, self@.from) as u64,
    {
        Duration::from_sectors(self.sectors() as u64)
    }

    /// The minutes, seconds and frames at which the track begins.
    pub fn msf(&self) -> (r: (u32, u8, u8))
        ensures
            r == spec_lba_to_msf(self@.from),
    {
        lba_to_msf(self.from)
    }

    /// The same, without the mandatory 150-sector disc leadin.
    pub fn msf_normalized(&self) -> (r: (u32, u8, u8))
        requires
            self@.wf(),
        ensures
            r == spec_lba_to_msf((self@.from - 150) as u32),
    {
        lba_to_msf(self.from - 150)
    }

    /// The track number.
    pub fn number(&self) -> (r: u8)
        ensures
            r == self@.num,
    {
        self.num
    }

    /// Where the track sits on the disc.
    pub fn position(&self) -> (r: TrackPosition)
        ensures
            r == self@.pos,
    {
        self.pos
    }

    /// The total number of CDDA samples in the track.
    pub fn samples(self) -> (r: u64)
        ensures
            r == sub_sat(self@.to, self@.from) as u64 * 588,
    {
        self.duration().samples()
    }

    /// The number of sectors the track occupies.
    pub fn sectors(&self) -> (r: u32)
        ensures
            r == sub_sat(self@.to, self@.from),
    {
        self.to.saturating_sub(self.from)
    }

    /// The half-open sector range the track occupies.
    pub fn sector_range(&self) -> (r: core::ops::Range<u32>)
        ensures
            r.start == self@.from,
            r.end == self@.to,
    {
        self.from..self.to
    }

    /// The same range, without the mandatory 150-sector disc leadin.
    pub fn sector_range_normalized(&self) -> (r: core::ops::Range<u32>)
        requires
            self@.wf(),
        ensures
            r.start == self@.from - 150,
            r.end == sub_sat(self@.to, 150),
    {
        (self.from - 150)..self.to.saturating_sub(150)
    }
}

// ---------------------------------------------------------------------------
// Walking a disc's tracks.
// ---------------------------------------------------------------------------
/// A cursor over the tracks of a table of contents, handing out one
/// [`Track`] at a time.
#[derive(Debug)]
pub struct Tracks<'a> {
    /// The audio start sectors.
    tracks: &'a [u32],
    /// Where the audio session ends.
    leadout: u32,
    /// The next track index to hand out.
    pos: usize,
}

impl<'a> Tracks<'a> {
    /// The audio start sectors being walked.
    pub closed spec fn spec_tracks(&self) -> Seq<u32> {
        self.tracks@
    }

    /// The leadout that closes the final track.
    pub closed spec fn spec_leadout(&self) -> u32 {
        self.leadout
    }

    /// How many tracks have been handed out.
    pub closed spec fn spec_pos(&self) -> int {
        self.pos as int
    }

    /// A fresh cursor over `tracks` closed by `leadout`.
    pub(crate) fn new(tracks: &'a [u32], leadout: u32) -> (r: Self)
        ensures
            r.spec_tracks() == tracks@,
            r.spec_leadout() == leadout,
            r.spec_pos() == 0,
    {
        Tracks { tracks, leadout, pos: 0 }
    }

    /// The next track, if any: number `pos + 1`, running to the following
    /// track's start or to the leadout.
    pub fn next(&mut self) -> (r: Option<Track>)
        requires
            old(self).spec_tracks().len() <= 99,
        ensures
            final(self).spec_tracks() == old(self).spec_tracks(),
            final(self).spec_leadout() == old(self).spec_leadout(),
            old(self).spec_pos() >= old(self).spec_tracks().len() ==> (r is None
                && final(self).spec_pos() == old(self).spec_pos()),
            old(self).spec_pos() < old(self).spec_tracks().len() ==> {
                &&& final(self).spec_pos() == old(self).spec_pos() + 1
                &&& r matches Some(t)
                &&& t@.num == old(self).spec_pos() + 1
                &&& t@.pos == spec_track_position(
                    old(self).spec_pos() + 1,
                    old(self).spec_tracks().len() as int,
                )
                &&& t@.from == old(self).spec_tracks()[old(self).spec_pos()]
                &&& t@.to == (if old(self).spec_pos() + 1 < old(self).spec_tracks().len() {
                    old(self).spec_tracks()[old(self).spec_pos() + 1]
                } else {
                    old(self).spec_leadout()
                })
            },
    {
        let len = self.tracks.len();
        if len <= self.pos {
            return None;
        }
        let num = (self.pos + 1) as u8;
        let pos = track_position(self.pos + 1, len);
        let from = self.tracks[self.pos];
        let to = if self.pos + 1 < len {
            self.tracks[self.pos + 1]
        } else {
            self.leadout
        };
        self.pos = self.pos + 1;
        Some(Track { num, pos, from, to })
    }

    /// How many tracks are still to come.
    pub fn len(&self) -> (r: usize)
        ensures
            r == (if self.spec_pos() <= self.spec_tracks().len() {
                self.spec_tracks().len() - self.spec_pos()
            } else {
                0
            }),
    {
        if self.pos <= self.tracks.len() {
            self.tracks.len() - self.pos
        } else {
            0
        }
    }
}

} // verus!
