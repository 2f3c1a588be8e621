//! Parsing, validation and mutation of audio-CD tables of contents, plus the
//! disc identifiers third-party databases derive from them.
//!
//! A [`Toc`] is built from a CDTOC-style metadata string ([`Toc::from_cdtoc`])
//! or from explicit parts ([`Toc::from_parts`]); every constructor validates
//! the same invariants, and every accessor and identifier derivation carries a
//! contract stating exactly what it returns.

use vstd::prelude::*;

mod error;
mod text;
mod time;
mod track;
mod shab64;
mod accuraterip;
mod cddb;
mod ctdb;
mod musicbrainz;

pub use error::TocError;
pub use time::Duration;
pub use track::Track;
pub use track::TrackPosition;
pub use track::Tracks;
pub use shab64::ShaB64;
pub use cddb::Cddb;
pub use accuraterip::AccurateRip;
pub use accuraterip::DriveOffset;
pub use track::TrackView;

use crate::text::group_views;
use crate::text::hex_group_val;
use crate::text::is_hex_group;
use crate::text::lemma_hex_group_val_bound;
use crate::text::lemma_pow16_mono;
use crate::text::lemma_pow16_values;
use crate::text::lemma_split_nonempty;
use crate::text::parse_hex;
use crate::text::push_char;
use crate::text::push_hexu;
use crate::text::hexu;
use crate::text::lemma_hexu;
use crate::text::lemma_split_no_sep;
use crate::text::lemma_split_sep_concat;
use crate::text::trim_start_ws;
use crate::text::trim_end_ws;
use crate::text::is_hex_char;
use crate::text::is_ascii_ws;
use crate::text::pow16;
use crate::text::split_groups;
use crate::text::split_on;
use crate::text::to_chars;
use crate::text::trim_range;
use crate::text::trim_ws;


verus! {

/// The disc layout: audio only, or where the data session sits.
#[derive(Debug, Clone, Copy, PartialEq, Eq, Hash, Structural)]
pub enum TocKind {
    /// Audio only: no data session.
    Audio,
    /// Mixed mode with the data session after all audio tracks.
    CDExtra,
    /// Mixed mode with the data session before all audio tracks.
    DataFirst,
}

impl TocKind {
    /// A short human-readable name for the layout.
    pub fn as_str(self) -> (r: &'static str)
        ensures
            self == TocKind::Audio ==> r@ == "audio-only"@,
            self == TocKind::CDExtra ==> r@ == "CD-Extra"@,
            self == TocKind::DataFirst ==> r@ == "data+audio"@,
    {
        match self {
            TocKind::Audio => "audio-only",
            TocKind::CDExtra => "CD-Extra",
            TocKind::DataFirst => "data+audio",
        }
    }

    /// Whether the layout carries a data session.
    pub fn has_data(self) -> (r: bool)
        ensures
            r == (self == TocKind::CDExtra || self == TocKind::DataFirst),
    {
        matches!(self, TocKind::CDExtra | TocKind::DataFirst)
    }
}

impl Default for TocKind {
    /// The default layout is audio only.
    fn default() -> (r: Self)
        ensures
            r == TocKind::Audio,
    {
        TocKind::Audio
    }
}

// ---------------------------------------------------------------------------
// The mathematical model of a table of contents.
// ---------------------------------------------------------------------------
/// The mathematical content of a [`Toc`]: its layout, the start sector of
/// every audio track, the data-session start (zero when absent), and the
/// leadout.
#[verifier::ext_equal]
pub ghost struct TocView {
    /// The disc layout.
    pub kind: TocKind,
    /// Start sectors of the audio tracks, in disc order.
    pub audio: Seq<u32>,
    /// Start sector of the data session; zero when there is none.
    pub data: u32,
    /// The leadout sector.
    pub leadout: u32,
}

/// Adjacent audio sectors grow strictly.
pub open spec fn strictly_increasing(s: Seq<u32>) -> bool {
    forall|i: int| 0 <= i && i + 1 < s.len() ==> #[trigger] s[i] < s[i + 1]
}

/// Strict growth of neighbours orders every pair.
pub proof fn lemma_increasing(s: Seq<u32>, i: int, j: int)
    requires
        strictly_increasing(s),
        0 <= i <= j < s.len(),
    ensures
        s[i] <= s[j],
        i < j ==> s[i] < s[j],
    decreases j - i,
{
    if i < j {
        lemma_increasing(s, i, j - 1);
    }
}

impl TocView {
    /// Whether the layout carries a data session.
    pub open spec fn has_data(self) -> bool {
        self.kind == TocKind::CDExtra || self.kind == TocKind::DataFirst
    }

    /// The invariants every live table of contents satisfies: one to 99 audio
    /// tracks, strictly increasing, a leadin of at least 150, the leadout
    /// past every audio sector, and the data session placed as the layout
    /// demands.
    pub open spec fn wf(self) -> bool {
        &&& 1 <= self.audio.len() <= 99
        &&& strictly_increasing(self.audio)
        &&& self.audio[0] >= 150
        &&& self.audio.last() < self.leadout
        &&& match self.kind {
            TocKind::Audio => self.data == 0,
            TocKind::CDExtra => self.audio.last() < self.data && self.data < self.leadout,
            TocKind::DataFirst => self.data < self.audio[0],
        }
    }

    /// Where the audio session starts: the first audio sector.
    pub open spec fn spec_audio_leadin(self) -> u32 {
        if self.audio.len() > 0 {
            self.audio[0]
        } else {
            150
        }
    }

    /// Where the audio session ends: the leadout, or for CD-Extra the data
    /// session start less the standard 11400-sector session gap.
    pub open spec fn spec_audio_leadout(self) -> u32 {
        if self.kind == TocKind::CDExtra {
            sub_sat(self.data, 11400)
        } else {
            self.leadout
        }
    }

    /// Where the disc starts, whichever session comes first.
    pub open spec fn spec_leadin(self) -> u32 {
        if self.kind == TocKind::DataFirst {
            self.data
        } else {
            self.spec_audio_leadin()
        }
    }
}

/// Subtraction on sector counts, saturating at zero.
pub open spec fn sub_sat(a: u32, b: u32) -> u32 {
    if a >= b {
        (a - b) as u32
    } else {
        0
    }
}

/// The validation outcome for explicit parts: the layout and stored data
/// sector on success, or the exact error, in the order the checks run.
pub open spec fn parts_outcome(audio: Seq<u32>, data: Option<u32>, leadout: u32) -> Result<
    (TocKind, u32),
    TocError,
> {
    if audio.len() == 0 {
        Err(TocError::NoAudio)
    } else if audio.len() > 99 {
        Err(TocError::TrackCount)
    } else if audio[0] < 150 {
        Err(TocError::LeadinSize)
    } else if !strictly_increasing(audio) || leadout <= audio.last() {
        Err(TocError::SectorOrder)
    } else {
        match data {
            Some(d) => {
                if d < audio[0] {
                    Ok((TocKind::DataFirst, d))
                } else if audio.last() < d && d < leadout {
                    Ok((TocKind::CDExtra, d))
                } else {
                    Err(TocError::SectorOrder)
                }
            },
            None => Ok((TocKind::Audio, 0)),
        }
    }
}

// ---------------------------------------------------------------------------
// The table of contents itself.
// ---------------------------------------------------------------------------
/// A validated table of contents.
///
/// Instances only come out of [`Toc::from_cdtoc`], [`Toc::from_parts`] or
/// [`Toc::from_durations`], all of which establish [`TocView::wf`]; the two
/// mutators preserve it or leave the value untouched.
#[derive(Debug, Clone, Hash)]
pub struct Toc {
    /// The disc layout.
    kind: TocKind,
    /// Start sectors of the audio tracks.
    audio: Vec<u32>,
    /// Start sector of the data session (zero when absent).
    data: u32,
    /// The leadout sector.
    leadout: u32,
}

impl View for Toc {
    type V = TocView;

    closed spec fn view(&self) -> TocView {
        TocView { kind: self.kind, audio: self.audio@, data: self.data, leadout: self.leadout }
    }
}

impl PartialEq for Toc {
    /// Two tables of contents are equal when all their parts are.
    fn eq(&self, other: &Self) -> (r: bool) {
        broadcast use vstd::laws_eq::group_laws_eq;

        let r = self.kind == other.kind && self.data == other.data && self.leadout == other.leadout
            && self.audio == other.audio;
        proof {
            if r {
                assert(self.audio@ =~= other.audio@);
                assert(self@ == other@);
            } else {
                assert(self@ != other@);
            }
        }
        r
    }
}

impl vstd::std_specs::cmp::PartialEqSpecImpl for Toc {
    open spec fn obeys_eq_spec() -> bool {
        true
    }

    open spec fn eq_spec(&self, other: &Self) -> bool {
        self@ == other@
    }
}

impl Eq for Toc {}

impl Toc {
    /// Validate explicit parts: the audio start sectors, the data-session
    /// start if any, and the leadout.
    ///
    /// Succeeds exactly when [`parts_outcome`] does, and the value then holds
    /// exactly the given parts.
    #[verifier::rlimit(50)]
    pub fn from_parts(audio: Vec<u32>, data: Option<u32>, leadout: u32) -> (r: Result<
        Self,
        TocError,
    >)
        ensures
            match r {
                Ok(t) => parts_outcome(audio@, data, leadout) == Ok::<_, TocError>((t@.kind, t@.data)) && t@.audio
                    == audio@ && t@.leadout == leadout && t@.wf(),
                Err(e) => parts_outcome(audio@, data, leadout) == Err::<(TocKind, u32), TocError>(e),
            },
    {
        let len = audio.len();
        if len == 0 {
            return Err(TocError::NoAudio);
        }
        if len > 99 {
            return Err(TocError::TrackCount);
        }
        if audio[0] < 150 {
            return Err(TocError::LeadinSize);
        }
        let mut i: usize = 0;
        while i + 1 < len
            invariant
                len == audio@.len(),
                1 <= len <= 99,
                audio@[0] >= 150,
                i < len,
                forall|k: int| 0 <= k && k + 1 <= i ==> #[trigger] audio@[k] < audio@[k + 1],
            decreases len - i,
        {
            if audio[i + 1] <= audio[i] {
                proof {
                    assert(!strictly_increasing(audio@));
                }
                return Err(TocError::SectorOrder);
            }
            i = i + 1;
        }
        proof {
            assert(strictly_increasing(audio@));
        }
        if leadout <= audio[len - 1] {
            return Err(TocError::SectorOrder);
        }
        match data {
            Some(d) => {
                if d < audio[0] {
                    let t = Toc { kind: TocKind::DataFirst, audio, data: d, leadout };
                    proof {
                        assert(t@.wf());
                        assert(parts_outcome(t@.audio, data, leadout) == Ok::<_, TocError>((
                            TocKind::DataFirst,
                            d,
                        )));
                    }
                    Ok(t)
                } else if audio[len - 1] < d && d < leadout {
                    let t = Toc { kind: TocKind::CDExtra, audio, data: d, leadout };
                    proof {
                        assert(t@.wf());
                        assert(parts_outcome(t@.audio, data, leadout) == Ok::<_, TocError>((
                            TocKind::CDExtra,
                            d,
                        )));
                    }
                    Ok(t)
                } else {
                    proof {
                        assert(parts_outcome(audio@, data, leadout) == Err::<(TocKind, u32), _>(
                            TocError::SectorOrder,
                        ));
                    }
                    Err(TocError::SectorOrder)
                }
            },
            None => {
                let t = Toc { kind: TocKind::Audio, audio, data: 0, leadout };
                proof {
                    assert(t@.wf());
                    assert(parts_outcome(t@.audio, data, leadout) == Ok::<_, TocError>((
                        TocKind::Audio,
                        0u32,
                    )));
                }
                Ok(t)
            },
        }
    }
}

// ---------------------------------------------------------------------------
// The CDTOC text grammar.
// ---------------------------------------------------------------------------
/// The outcome of interpreting the `+`-separated groups of a CDTOC string:
/// the audio sectors, the optional data sector and the leadout, or the exact
/// error, in the order the checks run.
///
/// The first group is the audio track count (one or two hex digits); exactly
/// that many sector groups must follow, then the leadout, and optionally one
/// more group for mixed-mode discs, which may carry an `X`/`x` prefix. Of the
/// two trailing groups the smaller is the data sector.
pub open spec fn groups_outcome(gs: Seq<Seq<char>>) -> Result<
    (Seq<u32>, Option<u32>, u32),
    TocError,
> {
    let g0 = gs[0];
    if !is_hex_group(g0, 2) {
        Err(TocError::TrackCount)
    } else {
        let count = hex_group_val(g0) as int;
        let avail = gs.len() - 1;
        let taken = if count <= avail {
            count
        } else {
            avail
        };
        if exists|k: int| 0 <= k < taken && !is_hex_group(#[trigger] gs[1 + k], 8) {
            Err(TocError::SectorSize)
        } else if taken == 0 {
            Err(TocError::NoAudio)
        } else if taken < count {
            Err(TocError::SectorCount(count as u8, taken as usize))
        } else if gs.len() < count + 2 {
            Err(TocError::SectorCount(count as u8, (count - 1) as usize))
        } else if !is_hex_group(gs[count + 1], 8) {
            Err(TocError::SectorSize)
        } else {
            let audio = Seq::new(count as nat, |k: int| hex_group_val(gs[1 + k]) as u32);
            let last1 = hex_group_val(gs[count + 1]) as u32;
            if gs.len() == count + 2 {
                Ok((audio, None, last1))
            } else {
                let g2 = gs[count + 2];
                let plain = is_hex_group(g2, 8);
                let marked = g2.len() >= 1 && (g2[0] == 'X' || g2[0] == 'x') && is_hex_group(
                    g2.drop_first(),
                    8,
                );
                if plain || marked {
                    let last2 = if plain {
                        hex_group_val(g2) as u32
                    } else {
                        hex_group_val(g2.drop_first()) as u32
                    };
                    if gs.len() > count + 3 {
                        Err(TocError::SectorCount(count as u8, (gs.len() - 3) as usize))
                    } else if last1 < last2 {
                        Ok((audio, Some(last1), last2))
                    } else {
                        Ok((audio, Some(last2), last1))
                    }
                } else {
                    Err(TocError::SectorSize)
                }
            }
        }
    }
}

/// What parsing a whole CDTOC string yields: trim ASCII whitespace, split on
/// `+`, then interpret the groups.
pub open spec fn cdtoc_outcome(s: Seq<char>) -> Result<(Seq<u32>, Option<u32>, u32), TocError> {
    groups_outcome(split_on(trim_ws(s), '+'))
}

/// Parse the characters of a CDTOC metadata value into its raw parts.
///
/// Grammar checks only; the invariant checks live in [`Toc::from_parts`].
#[verifier::rlimit(60)]
fn parse_cdtoc_metadata(v: &Vec<char>) -> (r: Result<(Vec<u32>, Option<u32>, u32), TocError>)
    ensures
        match r {
            Ok(p) => cdtoc_outcome(v@) == Ok::<_, TocError>((p.0@, p.1, p.2)),
            Err(e) => cdtoc_outcome(v@) == Err::<(Seq<u32>, Option<u32>, u32), TocError>(e),
        },
{
    let (start, end) = trim_range(v);
    let groups = split_groups(v, start, end, '+');
    let ghost gs = group_views(groups@);
    proof {
        lemma_split_nonempty(trim_ws(v@), '+');
        lemma_pow16_values();
    }
    // The audio track count comes first.
    let g0_len = groups[0].len();
    let count64 = match parse_hex(&groups[0], 0, g0_len, 2) {
        Some(n) => n,
        None => {
            proof {
                assert(gs[0] == groups@[0]@);
                assert(groups@[0]@.subrange(0, groups@[0]@.len() as int) =~= gs[0]);
            }
            return Err(TocError::TrackCount);
        },
    };
    proof {
        assert(gs[0] == groups@[0]@);
        assert(groups@[0]@.subrange(0, groups@[0]@.len() as int) =~= gs[0]);
        lemma_hex_group_val_bound(gs[0]);
        lemma_pow16_mono(gs[0].len(), 2);
    }
    let count = count64 as usize;
    let avail = groups.len() - 1;
    let taken = if count <= avail {
        count
    } else {
        avail
    };
    // Exactly `count` audio sector groups should follow.
    let mut audio: Vec<u32> = Vec::new();
    let mut k: usize = 0;
    while k < taken
        invariant
            k <= taken,
            taken <= avail,
            avail + 1 == groups@.len(),
            count == hex_group_val(gs[0]),
            taken == (if count <= avail {
                count as int
            } else {
                avail as int
            }),
            gs == group_views(groups@),
            gs == split_on(trim_ws(v@), '+'),
            gs.len() >= 1,
            is_hex_group(gs[0], 2),
            audio@.len() == k,
            forall|j: int| 0 <= j < k ==> is_hex_group(#[trigger] gs[1 + j], 8),
            forall|j: int| 0 <= j < k ==> #[trigger] audio@[j] == hex_group_val(gs[1 + j]) as u32,
        decreases taken - k,
    {
        let gk_len = groups[1 + k].len();
        match parse_hex(&groups[1 + k], 0, gk_len, 8) {
            Some(n) => {
                proof {
                    assert(gs[1 + k] == groups@[1 + k]@);
                    assert(groups@[1 + k]@.subrange(0, groups@[1 + k]@.len() as int) =~= gs[1 + k]);
                    lemma_hex_group_val_bound(gs[1 + k]);
                    lemma_pow16_mono(gs[1 + k].len(), 8);
                }
                audio.push(n as u32);
            },
            None => {
                proof {
                    assert(gs[1 + k] == groups@[1 + k]@);
                    assert(groups@[1 + k]@.subrange(0, groups@[1 + k]@.len() as int) =~= gs[1 + k]);
                }
                return Err(TocError::SectorSize);
            },
        }
        k = k + 1;
    }
    if taken == 0 {
        return Err(TocError::NoAudio);
    }
    if taken < count {
        return Err(TocError::SectorCount(count64 as u8, taken));
    }
    // At least one more group marks the leadout.
    if groups.len() < count + 2 {
        return Err(TocError::SectorCount(count64 as u8, count - 1));
    }
    let g1_len = groups[count + 1].len();
    let last1 = match parse_hex(&groups[count + 1], 0, g1_len, 8) {
        Some(n) => {
            proof {
                assert(gs[count + 1] == groups@[count + 1 as int]@);
                assert(groups@[count + 1 as int]@.subrange(
                    0,
                    groups@[count + 1 as int]@.len() as int,
                ) =~= gs[count + 1]);
                lemma_hex_group_val_bound(gs[count + 1]);
                lemma_pow16_mono(gs[count + 1].len(), 8);
            }
            n as u32
        },
        None => {
            proof {
                assert(gs[count + 1] == groups@[count + 1 as int]@);
                assert(groups@[count + 1 as int]@.subrange(
                    0,
                    groups@[count + 1 as int]@.len() as int,
                ) =~= gs[count + 1]);
            }
            return Err(TocError::SectorSize);
        },
    };
    proof {
        assert(audio@ =~= Seq::new(count as nat, |j: int| hex_group_val(gs[1 + j]) as u32));
    }
    // One more group means a mixed-mode disc; it may carry an X prefix.
    if groups.len() == count + 2 {
        return Ok((audio, None, last1));
    }
    let ghost g2 = gs[count + 2];
    proof {
        assert(g2 == groups@[count + 2 as int]@);
    }
    let g2_len = groups[count + 2].len();
    let plain = parse_hex(&groups[count + 2], 0, g2_len, 8);
    proof {
        assert(groups@[count + 2 as int]@.subrange(0, groups@[count + 2 as int]@.len() as int) =~= g2);
    }
    let last2: u32 = match plain {
        Some(n) => {
            proof {
                lemma_hex_group_val_bound(g2);
                lemma_pow16_mono(g2.len(), 8);
            }
            n as u32
        },
        None => {
            if g2_len == 0 {
                return Err(TocError::SectorSize);
            }
            let marker = groups[count + 2][0];
            if !(marker == 'X' || marker == 'x') {
                return Err(TocError::SectorSize);
            }
            match parse_hex(&groups[count + 2], 1, g2_len, 8) {
                Some(n) => {
                    proof {
                        assert(groups@[count + 2 as int]@.subrange(1, g2_len as int) =~= g2.drop_first());
                        lemma_hex_group_val_bound(g2.drop_first());
                        lemma_pow16_mono(g2.drop_first().len(), 8);
                    }
                    n as u32
                },
                None => {
                    proof {
                        assert(groups@[count + 2 as int]@.subrange(1, g2_len as int) =~= g2.drop_first());
                    }
                    return Err(TocError::SectorSize);
                },
            }
        },
    };
    proof {
        assert(gs.len() == groups@.len());
    }
    if groups.len() > count + 3 {
        return Err(TocError::SectorCount(count64 as u8, groups.len() - 3));
    }
    if last1 < last2 {
        Ok((audio, Some(last1), last2))
    } else {
        Ok((audio, Some(last2), last1))
    }
}

impl Toc {
    /// Parse a CDTOC metadata value and validate the parts it yields.
    ///
    /// Succeeds exactly when the grammar ([`cdtoc_outcome`]) and the
    /// invariant checks ([`parts_outcome`]) both do, and returns whichever
    /// error came first otherwise.
    pub fn from_cdtoc(src: &str) -> (r: Result<Self, TocError>)
        ensures
            match r {
                Ok(t) => {
                    &&& cdtoc_outcome(src@) matches Ok(p) && parts_outcome(p.0, p.1, p.2)
                        == Ok::<_, TocError>((t@.kind, t@.data)) && t@.audio == p.0 && t@.leadout
                        == p.2
                    &&& t@.wf()
                },
                Err(e) => match cdtoc_outcome(src@) {
                    Ok(p) => parts_outcome(p.0, p.1, p.2) == Err::<(TocKind, u32), TocError>(e),
                    Err(e2) => e == e2,
                },
            },
    {
        let v = to_chars(src);
        match parse_cdtoc_metadata(&v) {
            Ok((audio, data, leadout)) => Self::from_parts(audio, data, leadout),
            Err(e) => Err(e),
        }
    }
}

// ---------------------------------------------------------------------------
// Serialization.
// ---------------------------------------------------------------------------
/// The canonical text of the audio sectors: `+` then minimal uppercase hex,
/// for each in turn.
pub open spec fn audio_groups_str(audio: Seq<u32>) -> Seq<char>
    decreases audio.len(),
{
    if audio.len() == 0 {
        Seq::empty()
    } else {
        audio_groups_str(audio.drop_last()) + seq!['+'] + hexu(audio.last() as nat)
    }
}

/// The canonical CDTOC text of a table of contents: the hex track count, the
/// audio sectors, then the data/leadout tail in the layout's arrangement,
/// with a literal `X` before a leading data session's sector.
pub open spec fn toc_str(v: TocView) -> Seq<char> {
    let head = hexu(v.audio.len() as nat) + audio_groups_str(v.audio);
    match v.kind {
        TocKind::Audio => head + seq!['+'] + hexu(v.leadout as nat),
        TocKind::CDExtra => head + seq!['+'] + hexu(v.data as nat) + seq!['+'] + hexu(
            v.leadout as nat,
        ),
        TocKind::DataFirst => head + seq!['+'] + hexu(v.leadout as nat) + seq!['+', 'X'] + hexu(
            v.data as nat,
        ),
    }
}

impl Toc {
    /// Render the canonical CDTOC text for this table of contents.
    ///
    /// Uppercase hex without leading zeros throughout; a leading data
    /// session's sector comes last with an `X` prefix.
    pub fn to_string(&self) -> (r: String)
        requires
            self@.wf(),
        ensures
            r@ == toc_str(self@),
    {
        let mut out = String::new();
        let len = self.audio.len();
        push_hexu(&mut out, len as u32);
        let mut i: usize = 0;
        while i < len
            invariant
                i <= len,
                len == self@.audio.len(),
                out@ == hexu(len as nat) + audio_groups_str(self@.audio.take(i as int)),
            decreases len - i,
        {
            push_char(&mut out, '+');
            push_hexu(&mut out, self.audio[i]);
            proof {
                let t = self@.audio.take(i + 1);
                assert(t.drop_last() =~= self@.audio.take(i as int));
                assert(t.last() == self@.audio[i as int]);
                assert(out@ =~= hexu(len as nat) + audio_groups_str(t));
            }
            i = i + 1;
        }
        proof {
            assert(self@.audio.take(len as int) =~= self@.audio);
        }
        match self.kind {
            TocKind::Audio => {
                push_char(&mut out, '+');
                push_hexu(&mut out, self.leadout);
            },
            TocKind::CDExtra => {
                push_char(&mut out, '+');
                push_hexu(&mut out, self.data);
                push_char(&mut out, '+');
                push_hexu(&mut out, self.leadout);
            },
            TocKind::DataFirst => {
                push_char(&mut out, '+');
                push_hexu(&mut out, self.leadout);
                push_char(&mut out, '+');
                push_char(&mut out, 'X');
                push_hexu(&mut out, self.data);
            },
        }
        proof {
            assert(out@ =~= toc_str(self@));
        }
        out
    }
}

// ---------------------------------------------------------------------------
// Mutators.
// ---------------------------------------------------------------------------
impl TocView {
    /// Every sector moved by the same amount, so the audio leadin becomes
    /// `leadin`; the data sector moves only when a data session exists.
    pub open spec fn shifted(self, leadin: u32) -> TocView {
        let delta = leadin - self.audio[0];
        TocView {
            kind: self.kind,
            audio: Seq::new(self.audio.len(), |i: int| (self.audio[i] + delta) as u32),
            data: if self.has_data() {
                (self.data + delta) as u32
            } else {
                self.data
            },
            leadout: (self.leadout + delta) as u32,
        }
    }
}

/// What moving the audio leadin yields: the shifted table of contents, or the
/// exact error. A leadin below 150 is refused, a leading data session anchors
/// the disc and cannot be shifted, and a shift past `u32::MAX` is refused
/// rather than wrapped.
pub open spec fn leadin_shift_outcome(v: TocView, leadin: u32) -> Result<TocView, TocError> {
    if leadin < 150 {
        Err(TocError::LeadinSize)
    } else if v.kind == TocKind::DataFirst {
        Err(TocError::Format(TocKind::DataFirst))
    } else if leadin > v.audio[0] && v.leadout + leadin - v.audio[0] > u32::MAX {
        Err(TocError::SectorSize)
    } else {
        Ok(v.shifted(leadin))
    }
}

/// What reclassifying the layout yields: one sector moves between the audio
/// sequence and the data slot, or the exact error. The audio sequence may not
/// become empty, and a data sector below 150 cannot become the audio leadin.
pub open spec fn rekind_outcome(v: TocView, kind: TocKind) -> Result<TocView, TocError> {
    match (v.kind, kind) {
        (TocKind::Audio, TocKind::CDExtra) => if v.audio.len() <= 1 {
            Err(TocError::NoAudio)
        } else {
            Ok(
                TocView {
                    kind: kind,
                    audio: v.audio.drop_last(),
                    data: v.audio.last(),
                    leadout: v.leadout,
                },
            )
        },
        (TocKind::Audio, TocKind::DataFirst) => if v.audio.len() <= 1 {
            Err(TocError::NoAudio)
        } else {
            Ok(
                TocView {
                    kind: kind,
                    audio: v.audio.drop_first(),
                    data: v.audio[0],
                    leadout: v.leadout,
                },
            )
        },
        (TocKind::CDExtra, TocKind::Audio) => if v.audio.len() >= 99 {
            Err(TocError::TrackCount)
        } else {
            Ok(TocView { kind: kind, audio: v.audio.push(v.data), data: 0, leadout: v.leadout })
        },
        (TocKind::DataFirst, TocKind::Audio) => if v.data < 150 {
            Err(TocError::LeadinSize)
        } else if v.audio.len() >= 99 {
            Err(TocError::TrackCount)
        } else {
            Ok(
                TocView {
                    kind: kind,
                    audio: seq![v.data] + v.audio,
                    data: 0,
                    leadout: v.leadout,
                },
            )
        },
        (TocKind::CDExtra, TocKind::DataFirst) => Ok(
            TocView {
                kind: kind,
                audio: v.audio.drop_first().push(v.data),
                data: v.audio[0],
                leadout: v.leadout,
            },
        ),
        (TocKind::DataFirst, TocKind::CDExtra) => if v.data < 150 {
            Err(TocError::LeadinSize)
        } else {
            Ok(
                TocView {
                    kind: kind,
                    audio: seq![v.data] + v.audio.drop_last(),
                    data: v.audio.last(),
                    leadout: v.leadout,
                },
            )
        },
        _ => Ok(v),
    }
}

impl Toc {
    /// Move the audio leadin to `leadin`, nudging every sector (data and
    /// leadout included) by the same amount.
    ///
    /// On error the table of contents is left exactly as it was.
    #[verifier::rlimit(50)]
    pub fn set_audio_leadin(&mut self, leadin: u32) -> (r: Result<(), TocError>)
        requires
            old(self)@.wf(),
        ensures
            final(self)@.wf(),
            match r {
                Ok(()) => leadin_shift_outcome(old(self)@, leadin) == Ok::<_, TocError>(
                    final(self)@,
                ),
                Err(e) => leadin_shift_outcome(old(self)@, leadin) == Err::<TocView, TocError>(e)
                    && final(self)@ == old(self)@,
            },
    {
        if leadin < 150 {
            return Err(TocError::LeadinSize);
        }
        if matches!(self.kind, TocKind::DataFirst) {
            return Err(TocError::Format(TocKind::DataFirst));
        }
        let len = self.audio.len();
        let current = self.audio[0];
        if leadin == current {
            proof {
                assert(old(self)@.shifted(leadin).audio =~= old(self)@.audio);
                assert(leadin_shift_outcome(old(self)@, leadin) == Ok::<_, TocError>(
                    old(self)@.shifted(leadin),
                ));
                assert(old(self)@.shifted(leadin) =~= old(self)@);
            }
            return Ok(());
        }
        if leadin < current {
            // Nudge downward; a well-formed disc cannot underflow here.
            let diff = current - leadin;
            let mut moved: Vec<u32> = Vec::new();
            let mut i: usize = 0;
            while i < len
                invariant
                    i <= len,
                    len == old(self)@.audio.len(),
                    self@ == old(self)@,
                    old(self)@.wf(),
                    diff == current - leadin,
                    current == old(self)@.audio[0],
                    leadin < current,
                    moved@.len() == i,
                    forall|j: int| 0 <= j < i ==> #[trigger] moved@[j] == old(self)@.audio[j]
                        - diff,
                decreases len - i,
            {
                proof {
                    lemma_increasing(old(self)@.audio, 0, i as int);
                }
                let x = self.audio[i];
                moved.push(x - diff);
                i = i + 1;
            }
            proof {
                lemma_increasing(old(self)@.audio, 0, len - 1);
            }
            self.audio = moved;
            if self.kind.has_data() {
                self.data = self.data - diff;
            }
            self.leadout = self.leadout - diff;
            proof {
                assert(self@.audio =~= old(self)@.shifted(leadin).audio);
                assert(self@ =~= old(self)@.shifted(leadin));
                assert(self@.wf()) by {
                    assert(forall|j: int| 0 <= j && j + 1 < self@.audio.len()
                        ==> #[trigger] self@.audio[j] < self@.audio[j + 1]);
                    assert(self@.audio[0] == leadin);
                    assert(self@.audio.last() == old(self)@.audio.last() - diff);
                }
            }
            Ok(())
        } else {
            // Nudge upward; fail without touching anything if the leadout
            // would overflow, which bounds every other sector too.
            let diff = leadin - current;
            let new_leadout = match self.leadout.checked_add(diff) {
                Some(n) => n,
                None => {
                    return Err(TocError::SectorSize);
                },
            };
            let mut moved: Vec<u32> = Vec::new();
            let mut i: usize = 0;
            while i < len
                invariant
                    i <= len,
                    len == old(self)@.audio.len(),
                    self@ == old(self)@,
                    old(self)@.wf(),
                    diff == leadin - current,
                    current == old(self)@.audio[0],
                    leadin > current,
                    old(self)@.leadout + diff <= u32::MAX,
                    moved@.len() == i,
                    forall|j: int| 0 <= j < i ==> #[trigger] moved@[j] == old(self)@.audio[j]
                        + diff,
                decreases len - i,
            {
                proof {
                    lemma_increasing(old(self)@.audio, i as int, len - 1);
                }
                let x = self.audio[i];
                moved.push(x + diff);
                i = i + 1;
            }
            proof {
                lemma_increasing(old(self)@.audio, 0, len - 1);
            }
            self.audio = moved;
            if self.kind.has_data() {
                self.data = self.data + diff;
            }
            self.leadout = new_leadout;
            proof {
                assert(self@.audio =~= old(self)@.shifted(leadin).audio);
                assert(self@ =~= old(self)@.shifted(leadin));
                assert(self@.wf()) by {
                    assert(forall|j: int| 0 <= j && j + 1 < self@.audio.len()
                        ==> #[trigger] self@.audio[j] < self@.audio[j + 1]);
                    assert(self@.audio[0] == leadin);
                    assert(self@.audio.last() == old(self)@.audio.last() + diff);
                }
            }
            Ok(())
        }
    }

    /// Reclassify the disc layout, moving one sector between the audio
    /// sequence and the data slot as needed.
    ///
    /// On error the table of contents is left exactly as it was.
    #[verifier::rlimit(100)]
    #[verifier::spinoff_prover]
    pub fn set_kind(&mut self, kind: TocKind) -> (r: Result<(), TocError>)
        requires
            old(self)@.wf(),
        ensures
            final(self)@.wf(),
            match r {
                Ok(()) => rekind_outcome(old(self)@, kind) == Ok::<_, TocError>(final(self)@),
                Err(e) => rekind_outcome(old(self)@, kind) == Err::<TocView, TocError>(e)
                    && final(self)@ == old(self)@,
            },
    {
        let len = self.audio.len();
        proof {
            lemma_increasing(old(self)@.audio, 0, len - 1);
        }
        match (self.kind, kind) {
            (TocKind::Audio, TocKind::CDExtra) => {
                // The trailing "audio" track is really data.
                if len == 1 {
                    return Err(TocError::NoAudio);
                }
                let d = match self.audio.pop() {
                    Some(d) => d,
                    None => {
                        return Err(TocError::NoAudio);
                    },
                };
                self.data = d;
                self.kind = kind;
                proof {
                    lemma_increasing(old(self)@.audio, len - 2, len - 1);
                    assert(self@.audio.last() == old(self)@.audio[len - 2]);
                    assert(self@ =~= rekind_outcome(old(self)@, kind).unwrap());
                }
                Ok(())
            },
            (TocKind::Audio, TocKind::DataFirst) => {
                // The leading "audio" track is really data.
                if len == 1 {
                    return Err(TocError::NoAudio);
                }
                let d = self.audio.remove(0);
                self.data = d;
                self.kind = kind;
                proof {
                    assert(self@.audio =~= old(self)@.audio.drop_first());
                    assert(self@ =~= rekind_outcome(old(self)@, kind).unwrap());
                    assert(self@.wf()) by {
                        assert(forall|j: int| 0 <= j && j + 1 < self@.audio.len()
                            ==> #[trigger] self@.audio[j] < self@.audio[j + 1]);
                    }
                }
                Ok(())
            },
            (TocKind::CDExtra, TocKind::Audio) => {
                // The "data" track is really the trailing audio track, for
                // which there must be room.
                if len >= 99 {
                    return Err(TocError::TrackCount);
                }
                self.audio.push(self.data);
                self.data = 0;
                self.kind = kind;
                proof {
                    assert(self@.audio =~= old(self)@.audio.push(old(self)@.data));
                    assert(self@ =~= rekind_outcome(old(self)@, kind).unwrap());
                    assert(self@.wf()) by {
                        assert(forall|j: int| 0 <= j && j + 1 < self@.audio.len()
                            ==> #[trigger] self@.audio[j] < self@.audio[j + 1]);
                    }
                }
                Ok(())
            },
            (TocKind::DataFirst, TocKind::Audio) => {
                // The "data" track is really the leading audio track, which
                // must itself be a valid leadin.
                if self.data < 150 {
                    return Err(TocError::LeadinSize);
                }
                if len >= 99 {
                    return Err(TocError::TrackCount);
                }
                self.audio.insert(0, self.data);
                self.data = 0;
                self.kind = kind;
                proof {
                    assert(self@.audio =~= seq![old(self)@.data] + old(self)@.audio);
                    assert(self@ =~= rekind_outcome(old(self)@, kind).unwrap());
                    assert(self@.wf()) by {
                        assert(forall|j: int| 0 <= j && j + 1 < self@.audio.len()
                            ==> #[trigger] self@.audio[j] < self@.audio[j + 1]);
                    }
                }
                Ok(())
            },
            (TocKind::CDExtra, TocKind::DataFirst) => {
                // The data session belongs in front: its sector joins the end
                // of the audio run and the first audio sector becomes data.
                self.audio.push(self.data);
                let d = self.audio.remove(0);
                self.data = d;
                self.kind = kind;
                proof {
                    assert(self@.audio =~= old(self)@.audio.drop_first().push(old(self)@.data));
                    assert(self@ =~= rekind_outcome(old(self)@, kind).unwrap());
                    assert(self@.wf()) by {
                        assert(forall|j: int| 0 <= j && j + 1 < self@.audio.len()
                            ==> #[trigger] self@.audio[j] < self@.audio[j + 1]);
                    }
                }
                Ok(())
            },
            (TocKind::DataFirst, TocKind::CDExtra) => {
                // The data session belongs at the back: its sector leads the
                // audio run and the last audio sector becomes data.
                if self.data < 150 {
                    return Err(TocError::LeadinSize);
                }
                self.audio.insert(0, self.data);
                let d = match self.audio.pop() {
                    Some(d) => d,
                    None => {
                        return Err(TocError::NoAudio);
                    },
                };
                self.data = d;
                self.kind = kind;
                proof {
                    assert(self@.audio =~= seq![old(self)@.data] + old(self)@.audio.drop_last());
                    assert(self@.audio.last() == (seq![old(self)@.data]
                        + old(self)@.audio.drop_last()).last());
                    assert(self@ =~= rekind_outcome(old(self)@, kind).unwrap());
                    assert(self@.wf()) by {
                        if old(self)@.audio.len() >= 2 {
                            lemma_increasing(old(self)@.audio, 0, old(self)@.audio.len() - 2);
                        }
                        assert(forall|j: int| 0 <= j && j + 1 < self@.audio.len()
                            ==> #[trigger] self@.audio[j] < self@.audio[j + 1]);
                    }
                }
                Ok(())
            },
            _ => {
                proof {
                    assert(rekind_outcome(old(self)@, kind) == Ok::<_, TocError>(old(self)@));
                }
                Ok(())
            },
        }
    }
}

// ---------------------------------------------------------------------------
// Round-trip laws.
// ---------------------------------------------------------------------------
/// Moving the audio leadin and then moving it back restores the table of
/// contents bit for bit, for any shift the first move accepts.
pub proof fn lemma_leadin_shift_round_trip(v: TocView, leadin: u32)
    requires
        v.wf(),
        leadin_shift_outcome(v, leadin) is Ok,
    ensures
        leadin_shift_outcome(leadin_shift_outcome(v, leadin).unwrap(), v.audio[0])
            == Ok::<TocView, TocError>(v),
{
    let w = v.shifted(leadin);
    let n = v.audio.len() as int;
    let delta = leadin - v.audio[0];
    assert forall|i: int| 0 <= i < n implies 0 <= #[trigger] v.audio[i] + delta <= u32::MAX by {
        lemma_increasing(v.audio, 0, i);
        lemma_increasing(v.audio, i, n - 1);
    }
    assert(w.audio[0] == leadin);
    assert(w.audio.last() == v.audio.last() + delta);
    lemma_increasing(v.audio, 0, n - 1);
    assert(w.leadout == v.leadout + delta);
    let back = w.shifted(v.audio[0]);
    assert forall|i: int| 0 <= i < n implies #[trigger] back.audio[i] == v.audio[i] by {
        lemma_increasing(v.audio, 0, i);
        lemma_increasing(v.audio, i, n - 1);
    }
    assert(back.audio =~= v.audio);
    assert(back =~= v);
}

/// Reclassifying an audio-only disc as CD-Extra and back restores it bit for
/// bit; a disc with a single track cannot make the first move.
pub proof fn lemma_rekind_cdextra_round_trip(v: TocView)
    requires
        v.wf(),
        v.kind == TocKind::Audio,
        v.audio.len() >= 2,
    ensures
        rekind_outcome(v, TocKind::CDExtra) is Ok,
        rekind_outcome(rekind_outcome(v, TocKind::CDExtra).unwrap(), TocKind::Audio)
            == Ok::<TocView, TocError>(v),
{
    let w = rekind_outcome(v, TocKind::CDExtra).unwrap();
    let back = rekind_outcome(w, TocKind::Audio).unwrap();
    assert(back.audio =~= v.audio);
    assert(back =~= v);
}

/// Reclassifying an audio-only disc as data-first and back restores it bit
/// for bit; a disc with a single track cannot make the first move.
pub proof fn lemma_rekind_datafirst_round_trip(v: TocView)
    requires
        v.wf(),
        v.kind == TocKind::Audio,
        v.audio.len() >= 2,
    ensures
        rekind_outcome(v, TocKind::DataFirst) is Ok,
        rekind_outcome(rekind_outcome(v, TocKind::DataFirst).unwrap(), TocKind::Audio)
            == Ok::<TocView, TocError>(v),
{
    let w = rekind_outcome(v, TocKind::DataFirst).unwrap();
    assert(w.data == v.audio[0]);
    assert(w.audio.len() == v.audio.len() - 1);
    let back = rekind_outcome(w, TocKind::Audio).unwrap();
    assert(back.audio =~= v.audio);
    assert(back =~= v);
}

/// Unfold the audio group text from the front.
proof fn lemma_groups_str_front(a: Seq<u32>)
    requires
        a.len() >= 1,
    ensures
        audio_groups_str(a) == seq!['+'] + hexu(a[0] as nat) + audio_groups_str(a.drop_first()),
    decreases a.len(),
{
    if a.len() == 1 {
        assert(a.drop_last() =~= Seq::<u32>::empty());
        assert(a.drop_first() =~= Seq::<u32>::empty());
        assert(audio_groups_str(a) =~= seq!['+'] + hexu(a[0] as nat) + audio_groups_str(
            a.drop_first(),
        ));
    } else {
        let d = a.drop_last();
        lemma_groups_str_front(d);
        assert(a.drop_first().drop_last() =~= d.drop_first());
        assert(a.drop_first().last() == a.last());
        assert(d[0] == a[0]);
        assert(audio_groups_str(a.drop_first()) == audio_groups_str(a.drop_first().drop_last())
            + seq!['+'] + hexu(a.drop_first().last() as nat));
        assert(audio_groups_str(a) =~= seq!['+'] + hexu(a[0] as nat) + audio_groups_str(
            a.drop_first(),
        ));
    }
}

/// No separator hides in a rendered hex group.
proof fn lemma_hexu_no_plus(n: nat)
    ensures
        forall|i: int| 0 <= i < hexu(n).len() ==> hexu(n)[i] != '+',
{
    lemma_hexu(n);
    assert forall|i: int| 0 <= i < hexu(n).len() implies hexu(n)[i] != '+' by {
        assert(is_hex_char(hexu(n)[i]));
    }
}

/// Splitting the group text of `a` followed by one more separated tail.
proof fn lemma_split_groups_tail(first: Seq<char>, a: Seq<u32>, tail: Seq<char>)
    requires
        forall|i: int| 0 <= i < first.len() ==> first[i] != '+',
    ensures
        split_on(first + audio_groups_str(a) + seq!['+'] + tail, '+') == seq![first] + Seq::new(
            a.len(),
            |i: int| hexu(a[i] as nat),
        ) + split_on(tail, '+'),
    decreases a.len(),
{
    if a.len() == 0 {
        assert(first + audio_groups_str(a) + seq!['+'] + tail =~= first + seq!['+'] + tail);
        lemma_split_sep_concat(first, tail, '+');
        assert(Seq::new(0, |i: int| hexu(a[i] as nat)) =~~= Seq::<Seq<char>>::empty());
        assert(seq![first] + Seq::new(a.len(), |i: int| hexu(a[i] as nat)) + split_on(tail, '+')
            =~~= seq![first] + split_on(tail, '+'));
    } else {
        lemma_groups_str_front(a);
        let g0 = hexu(a[0] as nat);
        let d = a.drop_first();
        lemma_hexu_no_plus(a[0] as nat);
        assert(first + audio_groups_str(a) + seq!['+'] + tail =~= first + seq!['+'] + (g0
            + audio_groups_str(d) + seq!['+'] + tail));
        lemma_split_sep_concat(first, g0 + audio_groups_str(d) + seq!['+'] + tail, '+');
        lemma_split_groups_tail(g0, d, tail);
        assert(seq![first] + (seq![g0] + Seq::new(d.len(), |i: int| hexu(d[i] as nat)) + split_on(
            tail,
            '+',
        )) =~~= seq![first] + Seq::new(a.len(), |i: int| hexu(a[i] as nat)) + split_on(tail, '+'));
    }
}

/// Splitting the group text of `a` alone.
proof fn lemma_split_groups_last(first: Seq<char>, a: Seq<u32>)
    requires
        forall|i: int| 0 <= i < first.len() ==> first[i] != '+',
    ensures
        split_on(first + audio_groups_str(a), '+') == seq![first] + Seq::new(
            a.len(),
            |i: int| hexu(a[i] as nat),
        ),
{
    if a.len() == 0 {
        assert(first + audio_groups_str(a) =~= first);
        lemma_split_no_sep(first, '+');
        assert(seq![first] + Seq::new(a.len(), |i: int| hexu(a[i] as nat)) =~~= seq![first]);
    } else {
        let d = a.drop_last();
        let g = hexu(a.last() as nat);
        lemma_split_groups_tail(first, d, g);
        lemma_hexu_no_plus(a.last() as nat);
        lemma_split_no_sep(g, '+');
        assert(first + audio_groups_str(a) =~= first + audio_groups_str(d) + seq!['+'] + g);
        assert(seq![first] + Seq::new(d.len(), |i: int| hexu(d[i] as nat)) + seq![g] =~~= seq![
            first,
        ] + Seq::new(a.len(), |i: int| hexu(a[i] as nat)));
    }
}

/// Parsing the canonical text of a well-formed table of contents yields
/// exactly its parts, and validating those parts succeeds with the same
/// layout: serialization round-trips through the parser. The one layout kept
/// out is a leading data session at sector zero, whose canonical text renders
/// the zero as an empty group that the grammar refuses.
#[verifier::rlimit(100)]
#[verifier::spinoff_prover]
pub proof fn lemma_toc_str_round_trip(v: TocView)
    requires
        v.wf(),
        v.kind == TocKind::DataFirst ==> v.data >= 1,
    ensures
        cdtoc_outcome(toc_str(v)) == Ok::<_, TocError>(
            (
                v.audio,
                if v.has_data() {
                    Some(v.data)
                } else {
                    None::<u32>
                },
                v.leadout,
            ),
        ),
        parts_outcome(
            v.audio,
            if v.has_data() {
                Some(v.data)
            } else {
                None::<u32>
            },
            v.leadout,
        ) == Ok::<_, TocError>((v.kind, v.data)),
{
    let s = toc_str(v);
    let n = v.audio.len() as int;
    let count = v.audio.len() as nat;
    let first = hexu(count);
    lemma_hexu(count);
    lemma_hexu_no_plus(count);
    lemma_pow16_values();
    lemma_increasing(v.audio, 0, n - 1);
    assert(first.len() <= 2) by {
        assert(count < pow16(2));
    }
    assert(is_hex_group(first, 2));
    // Audio sectors are at least 150, so every group is short non-empty hex.
    assert forall|k: int| 0 <= k < n implies is_hex_group(
        #[trigger] hexu(v.audio[k] as nat),
        8,
    ) && hex_group_val(hexu(v.audio[k] as nat)) == v.audio[k] by {
        lemma_increasing(v.audio, 0, k);
        lemma_hexu(v.audio[k] as nat);
        assert(v.audio[k] < pow16(8));
    }
    lemma_hexu(v.leadout as nat);
    assert(v.leadout >= 1 && v.leadout < pow16(8));
    assert(is_hex_group(hexu(v.leadout as nat), 8));
    match v.kind {
        TocKind::Audio => {
            let x = v.audio.push(v.leadout);
            assert(audio_groups_str(x) == audio_groups_str(v.audio) + seq!['+'] + hexu(
                v.leadout as nat,
            )) by {
                assert(x.drop_last() =~= v.audio);
            }
            assert(s =~= first + audio_groups_str(x));
            lemma_split_groups_last(first, x);
            let gs = seq![first] + Seq::new(x.len(), |i: int| hexu(x[i] as nat));
            lemma_trim_toc_str(v);
            assert(cdtoc_outcome(s) == groups_outcome(gs));
            assert(gs.len() == n + 2);
            assert(gs[0] == first);
            assert forall|k: int| 0 <= k < n implies is_hex_group(#[trigger] gs[1 + k], 8) by {
                assert(gs[1 + k] == hexu(x[k] as nat));
                assert(x[k] == v.audio[k]);
            }
            assert(gs[n + 1] == hexu(v.leadout as nat));
            assert(Seq::new(count as nat, |k: int| hex_group_val(gs[1 + k]) as u32) =~= v.audio);
            assert(groups_outcome(gs) == Ok::<_, TocError>((v.audio, None::<u32>, v.leadout)));
        },
        TocKind::CDExtra => {
            let x = v.audio.push(v.data).push(v.leadout);
            lemma_hexu(v.data as nat);
            assert(v.data >= 1 && v.data < pow16(8));
            assert(audio_groups_str(x) == audio_groups_str(v.audio) + seq!['+'] + hexu(
                v.data as nat,
            ) + seq!['+'] + hexu(v.leadout as nat)) by {
                assert(x.last() == v.leadout);
                assert(x.drop_last() =~= v.audio.push(v.data));
                assert(x.drop_last().last() == v.data);
                assert(x.drop_last().drop_last() =~= v.audio);
                assert(audio_groups_str(x) == audio_groups_str(x.drop_last()) + seq!['+'] + hexu(
                    x.last() as nat,
                ));
                assert(audio_groups_str(x.drop_last()) == audio_groups_str(
                    x.drop_last().drop_last(),
                ) + seq!['+'] + hexu(x.drop_last().last() as nat));
            }
            assert(s =~= first + audio_groups_str(x));
            lemma_split_groups_last(first, x);
            let gs = seq![first] + Seq::new(x.len(), |i: int| hexu(x[i] as nat));
            lemma_trim_toc_str(v);
            assert(cdtoc_outcome(s) == groups_outcome(gs));
            assert(gs.len() == n + 3);
            assert(gs[0] == first);
            assert forall|k: int| 0 <= k < n implies is_hex_group(#[trigger] gs[1 + k], 8) by {
                assert(gs[1 + k] == hexu(x[k] as nat));
                assert(x[k] == v.audio[k]);
            }
            assert(gs[n + 1] == hexu(v.data as nat));
            assert(gs[n + 2] == hexu(v.leadout as nat));
            assert(is_hex_group(gs[n + 2], 8));
            assert(Seq::new(count as nat, |k: int| hex_group_val(gs[1 + k]) as u32) =~= v.audio);
            assert(groups_outcome(gs) == Ok::<_, TocError>(
                (v.audio, Some(v.data), v.leadout),
            ));
        },
        TocKind::DataFirst => {
            let x = v.audio.push(v.leadout);
            let tail = seq!['X'] + hexu(v.data as nat);
            lemma_hexu(v.data as nat);
            lemma_hexu_no_plus(v.data as nat);
            assert(v.data >= 1 && v.data < pow16(8));
            assert(audio_groups_str(x) == audio_groups_str(v.audio) + seq!['+'] + hexu(
                v.leadout as nat,
            )) by {
                assert(x.drop_last() =~= v.audio);
            }
            assert(s =~= first + audio_groups_str(x) + seq!['+'] + tail);
            lemma_split_groups_tail(first, x, tail);
            assert(forall|i: int| 0 <= i < tail.len() ==> #[trigger] tail[i] != '+');
            lemma_split_no_sep(tail, '+');
            let gs = seq![first] + Seq::new(x.len(), |i: int| hexu(x[i] as nat)) + seq![tail];
            assert(split_on(first + audio_groups_str(x) + seq!['+'] + tail, '+') =~~= gs);
            lemma_trim_toc_str(v);
            assert(cdtoc_outcome(s) == groups_outcome(gs));
            assert(gs.len() == n + 3);
            assert(gs[0] == first);
            assert forall|k: int| 0 <= k < n implies is_hex_group(#[trigger] gs[1 + k], 8) by {
                assert(gs[1 + k] == hexu(x[k] as nat));
                assert(x[k] == v.audio[k]);
            }
            assert(gs[n + 1] == hexu(v.leadout as nat));
            assert(gs[n + 2] == tail);
            assert(!is_hex_group(tail, 8)) by {
                assert(tail[0] == 'X');
                assert(!is_hex_char('X'));
            }
            assert(tail.drop_first() =~= hexu(v.data as nat));
            assert(Seq::new(count as nat, |k: int| hex_group_val(gs[1 + k]) as u32) =~= v.audio);
            assert(v.data < v.leadout);
            assert(groups_outcome(gs) == Ok::<_, TocError>(
                (v.audio, Some(v.data), v.leadout),
            ));
        },
    }
}

/// The canonical text has no whitespace to trim.
proof fn lemma_trim_toc_str(v: TocView)
    requires
        v.wf(),
        v.kind == TocKind::DataFirst ==> v.data >= 1,
    ensures
        trim_ws(toc_str(v)) == toc_str(v),
{
    let s = toc_str(v);
    let count = v.audio.len() as nat;
    let first = hexu(count);
    lemma_hexu(count);
    lemma_increasing(v.audio, 0, v.audio.len() - 1);
    assert(s[0] == first[0]) by {
        assert(first.len() >= 1);
    }
    assert(is_hex_char(s[0]));
    assert(!is_ascii_ws(s[0]));
    assert(s.len() >= 1);
    assert(trim_start_ws(s) == s);
    let last_val = if v.kind == TocKind::DataFirst {
        v.data as nat
    } else {
        v.leadout as nat
    };
    lemma_hexu(last_val);
    assert(last_val >= 1);
    assert(s.last() == hexu(last_val).last()) by {
        assert(hexu(last_val).len() >= 1);
    }
    assert(is_hex_char(s.last()));
    assert(!is_ascii_ws(s.last()));
    assert(trim_end_ws(s) == s);
}

// ---------------------------------------------------------------------------
// Building from durations.
// ---------------------------------------------------------------------------
/// The running sector positions reached by playing `ds` from `start`: the
/// start itself, then one position per duration.
pub open spec fn cum_positions(ds: Seq<Duration>, start: u32) -> Seq<int>
    decreases ds.len(),
{
    if ds.len() == 0 {
        seq![start as int]
    } else {
        let p = cum_positions(ds.drop_last(), start);
        p.push(p.last() + ds.last()@)
    }
}

/// Running positions never decrease, start at `start`, and count one past
/// the durations.
pub proof fn lemma_cum_positions(ds: Seq<Duration>, start: u32)
    ensures
        cum_positions(ds, start).len() == ds.len() + 1,
        cum_positions(ds, start)[0] == start,
        forall|i: int, j: int|
            0 <= i <= j < ds.len() + 1 ==> #[trigger] cum_positions(ds, start)[i]
                <= #[trigger] cum_positions(ds, start)[j],
    decreases ds.len(),
{
    if ds.len() > 0 {
        lemma_cum_positions(ds.drop_last(), start);
        let p = cum_positions(ds.drop_last(), start);
        let q = cum_positions(ds, start);
        assert(q == p.push(p.last() + ds.last()@));
        assert forall|i: int, j: int| 0 <= i <= j < ds.len() + 1 implies #[trigger] q[i]
            <= #[trigger] q[j] by {
            if j < ds.len() {
                assert(q[i] == p[i] && q[j] == p[j]);
            } else {
                assert(q[j] == p.last() + ds.last()@);
                if i < ds.len() {
                    assert(q[i] == p[i]);
                    assert(p[i] <= p.last());
                }
            }
        }
    }
}

/// A prefix of the running positions ends no later than the whole.
pub proof fn lemma_cum_positions_prefix(ds: Seq<Duration>, start: u32, k: int)
    requires
        0 <= k <= ds.len(),
    ensures
        cum_positions(ds.subrange(0, k), start).last() <= cum_positions(ds, start).last(),
        cum_positions(ds.subrange(0, k), start) == cum_positions(ds, start).subrange(0, k + 1),
    decreases ds.len() - k,
{
    lemma_cum_positions(ds, start);
    lemma_cum_positions(ds.subrange(0, k), start);
    let p = cum_positions(ds, start);
    if k == ds.len() {
        assert(ds.subrange(0, k) =~= ds);
        assert(p.subrange(0, k + 1) =~= p);
    } else {
        lemma_cum_positions_prefix(ds, start, k + 1);
        lemma_cum_positions(ds.subrange(0, k + 1), start);
        let d1 = ds.subrange(0, k + 1);
        assert(d1.drop_last() =~= ds.subrange(0, k));
        assert(cum_positions(d1, start) == cum_positions(ds.subrange(0, k), start).push(
            cum_positions(ds.subrange(0, k), start).last() + d1.last()@,
        ));
        assert(cum_positions(ds.subrange(0, k), start) =~= p.subrange(0, k + 1)) by {
            assert(cum_positions(d1, start).drop_last() =~= cum_positions(
                ds.subrange(0, k),
                start,
            ));
            assert(cum_positions(d1, start) == p.subrange(0, k + 2));
            assert(p.subrange(0, k + 2).drop_last() =~= p.subrange(0, k + 1));
        }
    }
    assert(cum_positions(ds.subrange(0, k), start).last() == p[k]);
    assert(p[k] <= p[ds.len() as int]);
    assert(p.last() == p[ds.len() as int]);
}

/// The audio positions among the running positions: all but the last.
pub open spec fn cum_audio(p: Seq<int>) -> Seq<u32> {
    Seq::new((p.len() - 1) as nat, |i: int| p[i] as u32)
}

impl Toc {
    /// Build an audio-only table of contents from consecutive track
    /// durations, starting at `leadin` (or the standard 150).
    ///
    /// A total that runs past `u32::MAX` is refused; otherwise the positions
    /// are validated exactly as by [`Toc::from_parts`].
    pub fn from_durations(src: &[Duration], leadin: Option<u32>) -> (r: Result<Self, TocError>)
        ensures
            ({
                let p = cum_positions(
                    src@,
                    match leadin {
                        Some(l) => l,
                        None => 150,
                    },
                );
                match r {
                    Ok(t) => {
                        &&& p.last() <= u32::MAX
                        &&& parts_outcome(cum_audio(p), None, p.last() as u32) == Ok::<
                            _,
                            TocError,
                        >((t@.kind, t@.data))
                        &&& t@.audio == cum_audio(p)
                        &&& t@.leadout == p.last() as u32
                        &&& t@.wf()
                    },
                    Err(e) => {
                        if p.last() > u32::MAX {
                            e == TocError::SectorSize
                        } else {
                            parts_outcome(cum_audio(p), None, p.last() as u32) == Err::<
                                (TocKind, u32),
                                TocError,
                            >(e)
                        }
                    },
                }
            }),
    {
        let start = match leadin {
            Some(l) => l,
            None => 150,
        };
        let ghost p = cum_positions(src@, start);
        proof {
            lemma_cum_positions(src@, start);
        }
        let mut audio: Vec<u32> = Vec::new();
        audio.push(start);
        let mut last: u32 = start;
        let mut i: usize = 0;
        while i < src.len()
            invariant
                i <= src@.len(),
                start == (match leadin {
                    Some(l) => l,
                    None => 150u32,
                }),
                p == cum_positions(src@, start),
                audio@.len() == i + 1,
                last == cum_positions(src@.subrange(0, i as int), start).last(),
                forall|j: int|
                    0 <= j <= i ==> #[trigger] audio@[j] == cum_positions(
                        src@.subrange(0, i as int),
                        start,
                    )[j],
            decreases src@.len() - i,
        {
            proof {
                lemma_cum_positions_prefix(src@, start, i as int);
                lemma_cum_positions_prefix(src@, start, i + 1);
                assert(src@.subrange(0, i + 1).drop_last() =~= src@.subrange(0, i as int));
                assert(src@.subrange(0, i + 1).last() == src@[i as int]);
            }
            let sect = src[i].sectors();
            if sect > (u32::MAX - last) as u64 {
                proof {
                    lemma_cum_positions(src@, start);
                    lemma_cum_positions(src@.subrange(0, i as int), start);
                    lemma_cum_positions(src@.subrange(0, i + 1), start);
                    assert(cum_positions(src@.subrange(0, i + 1), start).last() == last
                        + src@[i as int]@);
                    assert(p.last() >= last + src@[i as int]@);
                }
                return Err(TocError::SectorSize);
            }
            last = last + (sect as u32);
            audio.push(last);
            proof {
                let q0 = cum_positions(src@.subrange(0, i as int), start);
                let q1 = cum_positions(src@.subrange(0, i + 1), start);
                lemma_cum_positions(src@.subrange(0, i as int), start);
                lemma_cum_positions(src@.subrange(0, i + 1), start);
                assert(q1 == q0.push(q0.last() + src@[i as int]@));
                assert forall|j: int| 0 <= j <= i + 1 implies #[trigger] audio@[j] == q1[j] by {
                    if j <= i {
                        assert(q1[j] == q0[j]);
                    }
                }
            }
            i = i + 1;
        }
        proof {
            assert(src@.subrange(0, src@.len() as int) =~= src@);
        }
        let leadout = match audio.pop() {
            Some(l) => l,
            None => {
                return Err(TocError::SectorSize);
            },
        };
        proof {
            assert(audio@ =~= cum_audio(p)) by {
                lemma_cum_positions(src@, start);
                assert(forall|j: int|
                    0 <= j < audio@.len() ==> #[trigger] audio@[j] == p[j] as u32);
            }
            assert(leadout == p.last() as u32);
        }
        Self::from_parts(audio, None, leadout)
    }
}

// ---------------------------------------------------------------------------
// Accessors.
// ---------------------------------------------------------------------------
impl Toc {
    /// The audio leadin: where the first audio track begins.
    pub fn audio_leadin(&self) -> (r: u32)
        ensures
            r == self@.spec_audio_leadin(),
    {
        if self.audio.len() > 0 {
            self.audio[0]
        } else {
            150
        }
    }

    /// The audio leadin without the mandatory 150-sector disc leadin.
    pub fn audio_leadin_normalized(&self) -> (r: u32)
        requires
            self@.wf(),
        ensures
            r == self@.spec_audio_leadin() - 150,
    {
        self.audio_leadin() - 150
    }

    /// The audio leadout: where the audio session ends.
    pub fn audio_leadout(&self) -> (r: u32)
        ensures
            r == self@.spec_audio_leadout(),
    {
        if matches!(self.kind, TocKind::CDExtra) {
            self.data.saturating_sub(11400)
        } else {
            self.leadout
        }
    }

    /// The audio leadout without the mandatory 150-sector disc leadin,
    /// saturating at zero.
    pub fn audio_leadout_normalized(&self) -> (r: u32)
        ensures
            r == sub_sat(self@.spec_audio_leadout(), 150),
    {
        self.audio_leadout().saturating_sub(150)
    }

    /// The number of audio tracks.
    pub fn audio_len(&self) -> (r: usize)
        ensures
            r == self@.audio.len(),
    {
        self.audio.len()
    }

    /// The start sectors of the audio tracks.
    pub fn audio_sectors(&self) -> (r: &[u32])
        ensures
            r@ == self@.audio,
    {
        self.audio.as_slice()
    }

    /// The start sector of the data session, if there is one.
    pub fn data_sector(&self) -> (r: Option<u32>)
        ensures
            r == (if self@.has_data() {
                Some(self@.data)
            } else {
                None::<u32>
            }),
    {
        if self.kind.has_data() {
            Some(self.data)
        } else {
            None
        }
    }

    /// The data-session start without the mandatory 150-sector disc leadin,
    /// saturating at zero.
    pub fn data_sector_normalized(&self) -> (r: Option<u32>)
        ensures
            r == (if self@.has_data() {
                Some(sub_sat(self@.data, 150))
            } else {
                None::<u32>
            }),
    {
        if self.kind.has_data() {
            Some(self.data.saturating_sub(150))
        } else {
            None
        }
    }

    /// Whether the disc has a data session.
    pub fn has_data(&self) -> (r: bool)
        ensures
            r == self@.has_data(),
    {
        self.kind.has_data()
    }

    /// The disc layout.
    pub fn kind(&self) -> (r: TocKind)
        ensures
            r == self@.kind,
    {
        self.kind
    }

    /// Where the disc starts, whichever session comes first.
    pub fn leadin(&self) -> (r: u32)
        ensures
            r == self@.spec_leadin(),
    {
        if matches!(self.kind, TocKind::DataFirst) {
            self.data
        } else {
            self.audio_leadin()
        }
    }

    /// The disc leadin without the mandatory 150 sectors, saturating at zero.
    pub fn leadin_normalized(&self) -> (r: u32)
        ensures
            r == sub_sat(self@.spec_leadin(), 150),
    {
        self.leadin().saturating_sub(150)
    }

    /// The leadout sector.
    pub fn leadout(&self) -> (r: u32)
        ensures
            r == self@.leadout,
    {
        self.leadout
    }

    /// The leadout without the mandatory 150-sector disc leadin.
    pub fn leadout_normalized(&self) -> (r: u32)
        requires
            self@.wf(),
        ensures
            r == self@.leadout - 150,
    {
        proof {
            lemma_increasing(self@.audio, 0, self@.audio.len() - 1);
        }
        self.leadout - 150
    }

    /// The details of audio track `num` (numbered from one), or `None` when
    /// the number is out of range.
    pub fn audio_track(&self, num: usize) -> (r: Option<Track>)
        requires
            self@.wf(),
        ensures
            (num == 0 || num > self@.audio.len()) ==> r is None,
            (1 <= num <= self@.audio.len()) ==> {
                &&& r matches Some(t)
                &&& t@.num == num
                &&& t@.pos == crate::track::spec_track_position(
                    num as int,
                    self@.audio.len() as int,
                )
                &&& t@.from == self@.audio[num - 1]
                &&& t@.to == (if num < self@.audio.len() {
                    self@.audio[num as int]
                } else {
                    self@.spec_audio_leadout()
                })
                &&& t@.wf()
            },
    {
        let len = self.audio.len();
        if num == 0 || len < num {
            None
        } else {
            proof {
                lemma_increasing(self@.audio, 0, num - 1);
            }
            let from = self.audio[num - 1];
            let to = if num < len {
                self.audio[num]
            } else {
                self.audio_leadout()
            };
            Some(Track::assemble(num as u8, crate::track::track_position(num, len), from, to))
        }
    }

    /// A cursor over every audio track in order.
    pub fn audio_tracks<'a>(&'a self) -> (r: Tracks<'a>)
        ensures
            r.spec_tracks() == self@.audio,
            r.spec_leadout() == self@.spec_audio_leadout(),
            r.spec_pos() == 0,
    {
        Tracks::new(self.audio.as_slice(), self.audio_leadout())
    }

    /// The hidden pre-gap pseudo-track between the mandatory disc leadin and
    /// the first audio track, when that gap is non-empty and the disc is not
    /// data-first.
    pub fn htoa(&self) -> (r: Option<Track>)
        requires
            self@.wf(),
        ensures
            (self@.audio[0] == 150 || self@.kind == TocKind::DataFirst) ==> r is None,
            (self@.audio[0] != 150 && self@.kind != TocKind::DataFirst) ==> {
                &&& r matches Some(t)
                &&& t@.num == 0
                &&& t@.pos == TrackPosition::Invalid
                &&& t@.from == 150
                &&& t@.to == self@.audio[0]
                &&& t@.wf()
            },
    {
        let leadin = self.audio_leadin();
        if leadin == 150 || matches!(self.kind, TocKind::DataFirst) {
            None
        } else {
            Some(Track::assemble(0, TrackPosition::Invalid, 150, leadin))
        }
    }

    /// The total duration of the audio session, in sectors; an audio session
    /// whose end falls before its start (possible only for degenerate
    /// CD-Extra gaps) counts as empty.
    pub fn duration(&self) -> (r: Duration)
        ensures
            r@ == sub_sat(self@.spec_audio_leadout(), self@.spec_audio_leadin()) as u64,
    {
        Duration::from_sectors(self.audio_leadout().saturating_sub(self.audio_leadin()) as u64)
    }
}

} // verus!
