//! Value-to-text-to-value round trips for every type with a string form, and
//! the duration and track helpers.

use cdtoc::AccurateRip;
use cdtoc::Cddb;
use cdtoc::Duration;
use cdtoc::ShaB64;
use cdtoc::Toc;

use cdtoc::TocError;
use cdtoc::TocKind;
use cdtoc::TrackPosition;
const TOC: &str = "B+96+5DEF+A0F2+F809+1529F+1ACB3+20CBC+24E14+2AF17+2F4EA+35BDD+3B96D";

#[test]
fn serde_accuraterip() {
    let accuraterip = Toc::from_cdtoc(TOC).expect("Invalid TOC.").accuraterip_id();
    let s = accuraterip.to_string();
    let d = AccurateRip::decode(&s).expect("AccurateRip deserialize failed.");
    assert_eq!(accuraterip, d, "AccurateRip string round trip does not match the original.");
}

#[test]
fn serde_cddb() {
    let cddb = Toc::from_cdtoc(TOC).expect("Invalid TOC.").cddb_id();
    let s = cddb.to_string();
    let d = Cddb::decode(&s).expect("CDDB deserialize failed.");
    assert_eq!(cddb, d, "CDDB string round trip does not match the original.");
}

#[test]
fn serde_ctdb() {
    let ctdb = Toc::from_cdtoc(TOC).expect("Invalid TOC.").ctdb_id();
    let s = ctdb.to_string();
    let d = ShaB64::decode(&s).expect("ShaB64 deserialize failed.");
    assert_eq!(ctdb, d, "ShaB64 string round trip does not match the original.");
}

#[test]
fn serde_musicbrainz() {
    let mb = Toc::from_cdtoc(TOC).expect("Invalid TOC.").musicbrainz_id();
    let s = mb.to_string();
    let d = ShaB64::decode(&s).expect("ShaB64 deserialize failed.");
    assert_eq!(mb, d, "ShaB64 string round trip does not match the original.");
}

#[test]
fn serde_duration() {
    let duration = Duration::from(123_u32);
    let d = Duration::from(duration.sectors());
    assert_eq!(duration, d, "Duration sector round trip does not match the original.");
}

#[test]
fn serde_toc() {
    let toc = Toc::from_cdtoc(TOC).expect("Invalid TOC.");
    let s = toc.to_string();
    let d = Toc::from_cdtoc(&s).expect("TOC deserialize failed.");
    assert_eq!(toc, d, "TOC string round trip does not match the original.");
}

#[test]
fn serde_tracks() {
    let toc = Toc::from_cdtoc(TOC).expect("Invalid TOC.");
    let mut walker = toc.audio_tracks();
    let mut num = 1usize;
    while let Some(track) = walker.next() {
        let same = toc.audio_track(num).expect("Track lookup failed.");
        assert_eq!(track, same, "Track does not match the original.");
        num += 1;
    }
    assert_eq!(num, toc.audio_len() + 1);

    // Make sure hidden pre-gap tracks work out okay.
    let toc = Toc::from_cdtoc("15+247E+2BEC+4AF4+7368+9704+B794+E271+110D0+12B7A+145C1+16CAF+195CF+1B40F+1F04A+21380+2362D+2589D+2793D+2A760+2DA32+300E1+32B46")
        .expect("Mummies TOC failed.");
    let htoa = toc.htoa().expect("Mummies HTOA failed.");
    assert_eq!(htoa.number(), 0);
    assert_eq!(htoa.sector_range(), 150..9342);
}

#[test]
fn t_duration_parts() {
    let toc = Toc::from_cdtoc("9+96+5766+A284+E600+11FE5+15913+19A98+1E905+240CB+26280").unwrap();
    let track = toc.audio_track(9).unwrap();
    let duration = track.duration();
    assert_eq!(duration.to_string(), "00:01:55+04");
    assert_eq!(duration.dhmsf(), (0, 0, 1, 55, 4));
    assert_eq!(duration.seconds_frames(), (115, 4));
    assert_eq!(duration.samples(), 5_073_852);
    assert_eq!(duration.sectors(), 8629);
    assert_eq!(
        duration.to_string_pretty(),
        "1 minute, 55 seconds, and 4 frames",
    );
    assert_eq!(Duration::from(0_u64).to_string_pretty(), "0 seconds");
    assert_eq!(
        Duration::from_cdda_samples(5_073_852).unwrap().to_string(),
        "00:01:55+04",
    );
    assert_eq!(
        Duration::from_cdda_samples(5_073_853),
        Err(cdtoc::TocError::CDDASampleCount)
    );
    assert_eq!(
        Duration::from_samples(96_000, 17_271_098).to_string(),
        "00:02:59+68",
    );
    // A duration with whole days spells them out.
    let long = Duration::from(75_u64 * 86_400 * 2 + 75 * 3661 + 7);
    assert_eq!(long.to_string(), "2d 01:01:01+07");
}

#[test]
fn t_track_details() {
    let toc = Toc::from_cdtoc("4+96+2D2B+6256+B327+D84A").unwrap();
    let track = toc.audio_track(1).unwrap();
    assert_eq!(track.sectors(), 11_413_u32);
    assert_eq!(track.sector_range(), 150..11_563);
    assert_eq!(track.sector_range_normalized(), 0..11_413);
    assert_eq!(track.duration().to_string(), "00:02:32+13");

    let track = toc.audio_track(2).unwrap();
    assert_eq!(track.msf(), (2, 34, 13));
    assert_eq!(track.msf_normalized(), (2, 32, 13));
    assert_eq!(track.number(), 2_u8);

    assert_eq!(toc.audio_track(1).unwrap().position(), TrackPosition::First);
    assert_eq!(toc.audio_track(2).unwrap().position(), TrackPosition::Middle);
    assert_eq!(toc.audio_track(4).unwrap().position(), TrackPosition::Last);
    assert!(toc.audio_track(0).is_none());
    assert!(toc.audio_track(5).is_none());
    assert!(TrackPosition::First.is_first());
    assert!(TrackPosition::Only.is_first());
    assert!(!TrackPosition::Middle.is_first());
    assert!(TrackPosition::Last.is_last());
    assert!(TrackPosition::Only.is_last());
    assert_eq!(TrackPosition::Middle.as_str(), "Middle");

    let track9 = Toc::from_cdtoc("9+96+5766+A284+E600+11FE5+15913+19A98+1E905+240CB+26280")
        .unwrap()
        .audio_track(9)
        .unwrap();
    assert_eq!(track9.bytes(), 20_295_408);
    assert_eq!(track9.samples(), 5_073_852);
}

#[test]
fn t_error_messages() {
    assert_eq!(TocError::LeadinSize.to_string(), "Leadin must be at least 150.");
    assert_eq!(
        TocError::SectorCount(10, 12).to_string(),
        "Expected 10 audio sectors, found 12.",
    );
    assert_eq!(
        TocError::Format(TocKind::DataFirst).to_string(),
        "This operation can't be applied to data+audio discs.",
    );
    assert_eq!(TocKind::CDExtra.as_str(), "CD-Extra");
}
