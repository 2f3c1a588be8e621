//! The error taxonomy: everything a parse, a validation or a decode can
//! report.

use vstd::prelude::*;

use crate::TocKind;
use crate::text::decu;
use crate::text::push_decu;
use vstd::string::StringExecFns;

verus! {

/// Every failure this library can report.
///
/// Parsing, validation, the two mutators and each identifier codec all draw
/// from this one closed set; no operation panics.
#[derive(Debug, Clone, Copy, PartialEq, Eq, Hash, Structural)]
pub enum TocError {
    /// A CDDA sample total was not a whole number of sectors (588 samples).
    CDDASampleCount,
    /// A CDTOC string held something besides hex digits, `+`, and `X`.
    CDTOCChars,
    /// A checksum manifest was structurally wrong.
    Checksums,
    /// The disc format is incompatible with the requested operation.
    Format(TocKind),
    /// The audio leadin was below the mandatory 150 sectors.
    LeadinSize,
    /// A table of contents needs at least one audio track.
    NoAudio,
    /// A checksum manifest held no usable checksums.
    NoChecksums,
    /// The declared track count and the number of sector groups disagree:
    /// expected, then found.
    SectorCount(u8, usize),
    /// Sectors out of order, overlapping, or a misplaced data session.
    SectorOrder,
    /// A sector value overflowed 32 bits.
    SectorSize,
    /// The audio track count fell outside `1..=99`.
    TrackCount,
    /// An AccurateRip ID string would not decode.
    AccurateRipDecode,
    /// A drive-offset manifest would not decode.
    DriveOffsetDecode,
    /// A drive-offset manifest held no usable records.
    NoDriveOffsets,
    /// A CDDB ID string would not decode.
    CddbDecode,
    /// A SHA-1/base64 ID string would not decode.
    ShaB64Decode,
}

/// The message for each error, exactly as [`TocError::to_string`] renders it.
pub open spec fn error_message(e: TocError) -> Seq<char> {
    match e {
        TocError::CDDASampleCount => "Invalid CDDA sample count."@,
        TocError::CDTOCChars => "Invalid character(s), expecting only 0-9, A-F, +, and (rarely) X."@,
        TocError::Checksums => "Unable to parse checksums."@,
        TocError::Format(kind) => "This operation can't be applied to "@ + kind_name(kind)
            + " discs."@,
        TocError::LeadinSize => "Leadin must be at least 150."@,
        TocError::NoAudio => "At least one audio track is required."@,
        TocError::NoChecksums => "No checksums were present."@,
        TocError::SectorCount(expected, found) => "Expected "@ + decu(expected as nat)
            + " audio sectors, found "@ + decu(found as nat) + "."@,
        TocError::SectorOrder => "Sectors are incorrectly ordered or overlap."@,
        TocError::SectorSize => "Sector sizes may not exceed four bytes (u32)."@,
        TocError::TrackCount => "The number of audio tracks must be between 1..=99."@,
        TocError::AccurateRipDecode => "Invalid AccurateRip ID string."@,
        TocError::DriveOffsetDecode => "Unable to parse drive offsets."@,
        TocError::NoDriveOffsets => "No drive offsets were found."@,
        TocError::CddbDecode => "Invalid CDDB ID string."@,
        TocError::ShaB64Decode => "Invalid sha/base64 ID string."@,
    }
}

/// The name of a layout, as [`TocKind::as_str`] returns it.
pub open spec fn kind_name(kind: TocKind) -> Seq<char> {
    match kind {
        TocKind::Audio => "audio-only"@,
        TocKind::CDExtra => "CD-Extra"@,
        TocKind::DataFirst => "data+audio"@,
    }
}

impl TocError {
    /// The human-readable message for this error.
    pub fn to_string(&self) -> (r: String)
        ensures
            r@ == error_message(*self),
    {
        match self {
            TocError::CDDASampleCount => String::from_str("Invalid CDDA sample count."),
            TocError::CDTOCChars => String::from_str(
                "Invalid character(s), expecting only 0-9, A-F, +, and (rarely) X.",
            ),
            TocError::Checksums => String::from_str("Unable to parse checksums."),
            TocError::Format(kind) => {
                let mut out = String::from_str("This operation can't be applied to ");
                out.append(kind.as_str());
                out.append(" discs.");
                proof {
                    assert(out@ =~= error_message(*self));
                }
                out
            },
            TocError::LeadinSize => String::from_str("Leadin must be at least 150."),
            TocError::NoAudio => String::from_str("At least one audio track is required."),
            TocError::NoChecksums => String::from_str("No checksums were present."),
            TocError::SectorCount(expected, found) => {
                let mut out = String::from_str("Expected ");
                push_decu(&mut out, *expected as u64);
                out.append(" audio sectors, found ");
                push_decu(&mut out, *found as u64);
                out.append(".");
                proof {
                    assert(out@ =~= error_message(*self));
                }
                out
            },
            TocError::SectorOrder => String::from_str(
                "Sectors are incorrectly ordered or overlap.",
            ),
            TocError::SectorSize => String::from_str(
                "Sector sizes may not exceed four bytes (u32).",
            ),
            TocError::TrackCount => String::from_str(
                "The number of audio tracks must be between 1..=99.",
            ),
            TocError::AccurateRipDecode => String::from_str("Invalid AccurateRip ID string."),
            TocError::DriveOffsetDecode => String::from_str("Unable to parse drive offsets."),
            TocError::NoDriveOffsets => String::from_str("No drive offsets were found."),
            TocError::CddbDecode => String::from_str("Invalid CDDB ID string."),
            TocError::ShaB64Decode => String::from_str("Invalid sha/base64 ID string."),
        }
    }
}

} // verus!
