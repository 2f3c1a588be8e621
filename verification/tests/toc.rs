//! Parsing, serialization and mutation of tables of contents.

use cdtoc::Toc;
use cdtoc::TocKind;

use cdtoc::TocError;
const CDTOC_AUDIO: &str = "B+96+5DEF+A0F2+F809+1529F+1ACB3+20CBC+24E14+2AF17+2F4EA+35BDD+3B96D";
const CDTOC_EXTRA: &str = "A+96+3757+696D+C64F+10A13+14DA2+19E88+1DBAA+213A4+2784E+2D7AF+36F11";
const CDTOC_DATA_AUDIO: &str = "A+3757+696D+C64F+10A13+14DA2+19E88+1DBAA+213A4+2784E+2D7AF+36F11+X96";

#[test]
fn t_audio() {
    let toc = Toc::from_cdtoc(CDTOC_AUDIO).expect("Unable to parse CDTOC_AUDIO.");
    let sectors = vec![
        150, 24047, 41202, 63497, 86687, 109_747, 134_332, 151_060, 175_895, 193_770, 220_125,
    ];
    assert_eq!(toc.audio_len(), 11);
    assert_eq!(toc.audio_sectors(), &sectors);
    assert_eq!(toc.data_sector(), None);
    assert!(!toc.has_data());
    assert_eq!(toc.kind(), TocKind::Audio);
    assert_eq!(toc.audio_leadin(), 150);
    assert_eq!(toc.audio_leadout(), 244_077);
    assert_eq!(toc.leadin(), 150);
    assert_eq!(toc.leadout(), 244_077);
    assert_eq!(toc.to_string(), CDTOC_AUDIO);

    // This should match when built with the equivalent parts.
    assert_eq!(Toc::from_parts(sectors, None, 244_077), Ok(toc));

    // A long TOC should get the audio track count right.
    let toc = Toc::from_cdtoc("20+96+33BA+5B5E+6C74+7C96+91EE+A9A3+B1AC+BEFC+D2E6+E944+103AC+11426+14B58+174E2+1A9F7+1C794+1F675+21AB9+24090+277DD+2A783+2D508+2DEAA+2F348+31F20+37419+3A463+3DC2F+4064B+43337+4675B+4A7C0")
        .expect("Long TOC failed.");
    assert_eq!(toc.audio_len(), 32);
    assert_eq!(
        toc.to_string(),
        "20+96+33BA+5B5E+6C74+7C96+91EE+A9A3+B1AC+BEFC+D2E6+E944+103AC+11426+14B58+174E2+1A9F7+1C794+1F675+21AB9+24090+277DD+2A783+2D508+2DEAA+2F348+31F20+37419+3A463+3DC2F+4064B+43337+4675B+4A7C0"
    );

    // And one more with a hexish track count.
    let toc = Toc::from_cdtoc("10+96+2B4E+4C51+6B3C+9E08+CD43+FC99+13A55+164B8+191C9+1C0FF+1F613+21B5A+23F70+27A4A+2C20D+2FC65").unwrap();
    assert_eq!(toc.audio_len(), 16);
    assert_eq!(
        toc.to_string(),
        "10+96+2B4E+4C51+6B3C+9E08+CD43+FC99+13A55+164B8+191C9+1C0FF+1F613+21B5A+23F70+27A4A+2C20D+2FC65"
    );
}

#[test]
fn t_extra() {
    let toc = Toc::from_cdtoc(CDTOC_EXTRA).expect("Unable to parse CDTOC_EXTRA.");
    let sectors = vec![
        150, 14167, 26989, 50767, 68115, 85410, 106_120, 121_770, 136_100, 161_870,
    ];
    assert_eq!(toc.audio_len(), 10);
    assert_eq!(toc.audio_sectors(), &sectors);
    assert_eq!(toc.data_sector(), Some(186_287));
    assert!(toc.has_data());
    assert_eq!(toc.kind(), TocKind::CDExtra);
    assert_eq!(toc.audio_leadin(), 150);
    assert_eq!(toc.audio_leadout(), 174_887);
    assert_eq!(toc.leadin(), 150);
    assert_eq!(toc.leadout(), 225_041);
    assert_eq!(toc.to_string(), CDTOC_EXTRA);

    // This should match when built with the equivalent parts.
    assert_eq!(Toc::from_parts(sectors, Some(186_287), 225_041), Ok(toc));
}

#[test]
fn t_data_first() {
    let toc = Toc::from_cdtoc(CDTOC_DATA_AUDIO).expect("Unable to parse CDTOC_DATA_AUDIO.");
    let sectors = vec![
        14167, 26989, 50767, 68115, 85410, 106_120, 121_770, 136_100, 161_870, 186_287,
    ];
    assert_eq!(toc.audio_len(), 10);
    assert_eq!(toc.audio_sectors(), &sectors);
    assert_eq!(toc.data_sector(), Some(150));
    assert!(toc.has_data());
    assert_eq!(toc.kind(), TocKind::DataFirst);
    assert_eq!(toc.audio_leadin(), 14167);
    assert_eq!(toc.audio_leadout(), 225_041);
    assert_eq!(toc.leadin(), 150);
    assert_eq!(toc.leadout(), 225_041);
    assert_eq!(toc.to_string(), CDTOC_DATA_AUDIO);

    // This should match when built with the equivalent parts.
    assert_eq!(Toc::from_parts(sectors, Some(150), 225_041), Ok(toc));
}

#[test]
fn t_bad() {
    for i in [
        "A+96+3757+696D+C64F+10A13+14DA2+19E88+1DBAA+213A4+2784E+2D7AF+36F11+36F12",
        "A+96+3757+696D+C64F+10A13+14DA2+19E88+1DBAA+213A4+2784E",
        "0+96",
        "A+96+3757+696D+C64F+10A13+14DA2+19E88+2784E+1DBAA+213A4+2D7AF+36F11",
    ] {
        assert!(Toc::from_cdtoc(i).is_err());
    }
}

#[test]
fn t_rekind() {
    // Start with audio.
    let mut toc = Toc::from_cdtoc(CDTOC_AUDIO).expect("Unable to parse CDTOC_AUDIO.");

    // To CD-Extra.
    assert!(toc.set_kind(TocKind::CDExtra).is_ok());
    assert_eq!(toc.audio_len(), 10);
    assert_eq!(
        toc.audio_sectors(),
        &[150, 24047, 41202, 63497, 86687, 109_747, 134_332, 151_060, 175_895, 193_770,]
    );
    assert_eq!(toc.data_sector(), Some(220_125));
    assert!(toc.has_data());
    assert_eq!(toc.kind(), TocKind::CDExtra);
    assert_eq!(toc.audio_leadin(), 150);
    assert_eq!(toc.audio_leadout(), 208_725);
    assert_eq!(toc.leadin(), 150);
    assert_eq!(toc.leadout(), 244_077);

    // Back again.
    assert!(toc.set_kind(TocKind::Audio).is_ok());
    assert_eq!(Toc::from_cdtoc(CDTOC_AUDIO).unwrap(), toc);

    // To data-audio.
    assert!(toc.set_kind(TocKind::DataFirst).is_ok());
    assert_eq!(toc.audio_len(), 10);
    assert_eq!(
        toc.audio_sectors(),
        &[24047, 41202, 63497, 86687, 109_747, 134_332, 151_060, 175_895, 193_770, 220_125,]
    );
    assert_eq!(toc.data_sector(), Some(150));
    assert!(toc.has_data());
    assert_eq!(toc.kind(), TocKind::DataFirst);
    assert_eq!(toc.audio_leadin(), 24047);
    assert_eq!(toc.audio_leadout(), 244_077);
    assert_eq!(toc.leadin(), 150);
    assert_eq!(toc.leadout(), 244_077);

    // Back again.
    assert!(toc.set_kind(TocKind::Audio).is_ok());
    assert_eq!(Toc::from_cdtoc(CDTOC_AUDIO).unwrap(), toc);

    // Now test data-to-other-data conversions.
    toc = Toc::from_cdtoc(CDTOC_EXTRA).expect("Unable to parse CDTOC_EXTRA.");
    let extra = toc.clone();
    let data_audio = Toc::from_cdtoc(CDTOC_DATA_AUDIO).expect("Unable to parse CDTOC_DATA_AUDIO.");

    // To data-audio.
    assert!(toc.set_kind(TocKind::DataFirst).is_ok());
    assert_eq!(toc, data_audio);

    // And back again.
    assert!(toc.set_kind(TocKind::CDExtra).is_ok());
    assert_eq!(toc, extra);
}

#[test]
fn t_leadin_shift() {
    let mut toc = Toc::from_cdtoc("4+96+2D2B+6256+B327+D84A").unwrap();
    assert_eq!(toc.audio_leadin(), 150);

    // Bump it up to 182.
    assert!(toc.set_audio_leadin(182).is_ok());
    assert_eq!(toc.audio_leadin(), 182);
    assert_eq!(toc.to_string(), "4+B6+2D4B+6276+B347+D86A");

    // Back down to 150.
    assert!(toc.set_audio_leadin(150).is_ok());
    assert_eq!(toc.audio_leadin(), 150);
    assert_eq!(toc.to_string(), "4+96+2D2B+6256+B327+D84A");

    // For CD-Extra, the data track gets nudged too.
    toc = Toc::from_cdtoc("3+96+2D2B+6256+B327+D84A").unwrap();
    assert_eq!(toc.kind(), TocKind::CDExtra);
    assert_eq!(toc.data_sector(), Some(45863));
    assert!(toc.set_audio_leadin(182).is_ok());
    assert_eq!(toc.data_sector(), Some(45895));
    assert!(toc.set_audio_leadin(150).is_ok());
    assert_eq!(toc.data_sector(), Some(45863));

    // The rejections: a too-small leadin, a data-first disc, and overflow.
    assert_eq!(toc.set_audio_leadin(149), Err(cdtoc::TocError::LeadinSize));
    assert_eq!(
        toc.set_audio_leadin(u32::MAX),
        Err(cdtoc::TocError::SectorSize)
    );
    let mut df = Toc::from_cdtoc(CDTOC_DATA_AUDIO).unwrap();
    assert_eq!(
        df.set_audio_leadin(200),
        Err(cdtoc::TocError::Format(TocKind::DataFirst))
    );
}

#[test]
fn t_from_durations() {
    let toc = Toc::from_durations(
        &[
            cdtoc::Duration::from(46650_u64),
            cdtoc::Duration::from(41702_u64),
            cdtoc::Duration::from(30295_u64),
            cdtoc::Duration::from(37700_u64),
            cdtoc::Duration::from(40050_u64),
            cdtoc::Duration::from(53985_u64),
            cdtoc::Duration::from(37163_u64),
            cdtoc::Duration::from(59902_u64),
        ],
        None,
    )
    .unwrap();
    assert_eq!(toc.to_string(), "8+96+B6D0+159B6+1D00D+26351+2FFC3+3D2A4+463CF+54DCD");
}

#[test]
fn t_parts_errors() {
    assert_eq!(Toc::from_parts(vec![], None, 1000), Err(TocError::NoAudio));
    assert_eq!(
        Toc::from_parts(vec![0, 10525], None, 15000),
        Err(TocError::LeadinSize)
    );
    assert_eq!(
        Toc::from_parts((0..100).map(|i| 150 + i).collect(), None, 10000),
        Err(TocError::TrackCount)
    );
    assert_eq!(
        Toc::from_parts(vec![150, 140], None, 10000),
        Err(TocError::SectorOrder)
    );
    assert_eq!(
        Toc::from_parts(vec![150, 300], None, 200),
        Err(TocError::SectorOrder)
    );
    // A data sector overlapping the audio run is refused too.
    assert_eq!(
        Toc::from_parts(vec![150, 300], Some(200), 400),
        Err(TocError::SectorOrder)
    );
}

#[test]
fn t_htoa() {
    // This disc has no hidden pre-gap track.
    let toc = Toc::from_cdtoc("4+96+2D2B+6256+B327+D84A").unwrap();
    assert!(toc.htoa().is_none());

    // But this one does.
    let toc = Toc::from_cdtoc("15+247E+2BEC+4AF4+7368+9704+B794+E271+110D0+12B7A+145C1+16CAF+195CF+1B40F+1F04A+21380+2362D+2589D+2793D+2A760+2DA32+300E1+32B46").unwrap();
    let htoa = toc.htoa().unwrap();
    assert_eq!(htoa.number(), 0);
    assert!(!htoa.position().is_valid());
    assert_eq!(htoa.sector_range(), 150..9342);
}
