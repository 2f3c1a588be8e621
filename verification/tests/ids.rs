//! The identifier derivations, their display forms, and their decoders.

use cdtoc::AccurateRip;
use cdtoc::Cddb;
use cdtoc::ShaB64;
use cdtoc::Toc;

/// A small drive-offset manifest: four 69-byte records.
use cdtoc::TocError;
const OFFSET_BIN: &[u8] = &[
    155, 2, 80, 73, 79, 78, 69, 69, 82, 32, 32, 45, 32, 66, 68, 45, 82, 87, 32, 32, 32, 66, 68,
    82, 45, 88, 49, 50, 0, 0, 0, 0, 0, 0, 0, 75, 0, 0, 0, 0, 0, 0, 0, 0, 0, 0, 0, 0, 0, 0, 0, 0,
    0, 0, 0, 0, 0, 0, 0, 0, 0, 0, 0, 0, 0, 0, 0, 0, 0, 155, 2, 80, 73, 79, 78, 69, 69, 82, 32,
    32, 45, 32, 66, 68, 45, 82, 87, 32, 32, 32, 66, 68, 82, 45, 88, 49, 50, 85, 0, 0, 0, 0, 0, 0,
    201, 0, 0, 0, 0, 0, 0, 0, 0, 0, 0, 0, 0, 0, 0, 0, 0, 0, 0, 0, 0, 0, 0, 0, 0, 0, 0, 0, 0, 0,
    0, 0, 0, 0, 155, 2, 80, 73, 79, 78, 69, 69, 82, 32, 32, 45, 32, 66, 68, 45, 82, 87, 32, 32,
    32, 66, 68, 82, 45, 88, 49, 51, 0, 0, 0, 0, 0, 0, 0, 8, 0, 0, 0, 0, 0, 0, 0, 0, 0, 0, 0, 0,
    0, 0, 0, 0, 0, 0, 0, 0, 0, 0, 0, 0, 0, 0, 0, 0, 0, 0, 0, 0, 0, 155, 2, 80, 73, 79, 78, 69,
    69, 82, 32, 32, 45, 32, 66, 68, 45, 82, 87, 32, 32, 32, 66, 68, 82, 45, 88, 49, 51, 85, 0, 0,
    0, 0, 0, 0, 60, 0, 0, 0, 0, 0, 0, 0, 0, 0, 0, 0, 0, 0, 0, 0, 0, 0, 0, 0, 0, 0, 0, 0, 0, 0,
    0, 0, 0, 0, 0, 0, 0, 0,
];

#[test]
fn t_accuraterip() {
    for (t, id) in [
        (
            "D+96+3B5D+78E3+B441+EC83+134F4+17225+1A801+1EA5C+23B5B+27CEF+2B58B+2F974+35D56+514C8",
            "013-001802ed-00f8ee31-b611560e",
        ),
        ("4+96+2D2B+6256+B327+D84A", "004-0002189a-00087f33-1f02e004"),
        (
            "10+B6+5352+62AC+99D6+E218+12AC0+135E7+142E9+178B0+19D22+1B0D0+1E7FA+22882+247DB+27074+2A1BD+2C0FB",
            "016-0018be61-012232a8-d6096410",
        ),
        (
            "15+247E+2BEC+4AF4+7368+9704+B794+E271+110D0+12B7A+145C1+16CAF+195CF+1B40F+1F04A+21380+2362D+2589D+2793D+2A760+2DA32+300E1+32B46",
            "021-0022250d-020afc1b-100a5515",
        ),
        (
            "63+96+12D9+5546+A8A2+CAAA+128BF+17194+171DF+1722A+17275+172C0+1730B+17356+173A1+173EC+17437+17482+174CD+17518+17563+175AE+175F9+17644+1768F+176DA+17725+17770+177BB+17806+17851+1789C+178E7+17932+1797D+179C8+17A13+17A5E+17AA9+17AF4+17B3F+17B8A+17BD5+17C20+17C6B+17CB6+17D01+17D4C+17D97+17DE2+17E2D+17E78+17EC3+17F0E+17F59+17FA4+17FEF+1803A+18085+180D0+1811B+18166+181B1+181FC+18247+18292+182DD+18328+18373+183BE+18409+18454+1849F+184EA+18535+18580+185CB+18616+18661+186AC+186F7+18742+1878D+187D8+18823+1886E+188B9+18904+1894F+1899A+189E5+18A30+18A7B+18AC6+18B11+18B5C+18BA7+18BF2+18C38+1ECDC+246E9",
            "099-00909976-1e2814f1-cc07c363",
        ),
    ] {
        let toc = Toc::from_cdtoc(t).expect("Invalid TOC");
        let ar_id = toc.accuraterip_id();
        assert_eq!(ar_id.to_string(), id);

        // Test decoding three ways.
        assert_eq!(AccurateRip::decode(id), Ok(ar_id));
        assert_eq!(AccurateRip::try_from(id), Ok(ar_id));
        assert_eq!(id.parse::<AccurateRip>(), Ok(ar_id));
    }
}

#[test]
fn t_drive_offsets() {
    let parsed = AccurateRip::parse_drive_offsets(OFFSET_BIN).expect("Drive offset parsing failed.");

    // Should never be empty.
    assert!(!parsed.is_empty());

    // Search for a known offset in the list to make sure it parsed.
    let offset = parsed
        .iter()
        .find(|r| r.vendor == "PIONEER" && r.model == "BD-RW   BDR-X13U")
        .expect("Unable to find BDR-X13U offset.")
        .offset;
    assert_eq!(offset, 667);
}

#[test]
fn t_drive_offsets_errors() {
    // Too short to hold one record.
    assert!(matches!(
        AccurateRip::parse_drive_offsets(&[0u8; 68]),
        Err(TocError::NoDriveOffsets)
    ));
    // A non-ASCII byte in the text region.
    let mut bad = OFFSET_BIN.to_vec();
    bad[5] = 0xC3;
    assert!(matches!(
        AccurateRip::parse_drive_offsets(&bad),
        Err(TocError::DriveOffsetDecode)
    ));
    // An offset outside the acceptable window.
    let mut far = OFFSET_BIN.to_vec();
    far[0] = 0xFF;
    far[1] = 0x7F;
    assert!(matches!(
        AccurateRip::parse_drive_offsets(&far),
        Err(TocError::DriveOffsetDecode)
    ));
}

#[test]
fn t_checksums() {
    let toc = Toc::from_cdtoc("4+96+2D2B+6256+B327+D84A").unwrap();
    let ar_id = toc.accuraterip_id();
    let me = ar_id.to_bytes();

    // One chunk: the identifier, then one confidence/checksum pair per track.
    let mut bin = me.clone();
    for k in 0..4u8 {
        bin.push(k + 1); // confidence
        bin.extend_from_slice(&[k + 10, 0, 0, 0]); // little-endian checksum
        bin.extend_from_slice(&[0, 0, 0, 0]); // the rest of the record
    }
    let parsed = toc.accuraterip_parse_checksums(&bin).expect("Checksum parsing failed.");
    assert_eq!(parsed.len(), 4);
    assert_eq!(parsed[0], vec![(10u32, 1u8)]);
    assert_eq!(parsed[3], vec![(13u32, 4u8)]);

    // The same chunk twice doubles each confidence.
    let mut twice = bin.clone();
    twice.extend_from_slice(&bin);
    let parsed = toc.accuraterip_parse_checksums(&twice).expect("Checksum parsing failed.");
    assert_eq!(parsed[0], vec![(10u32, 2u8)]);

    // A chunk for some other disc is refused.
    let mut alien = bin.clone();
    alien[0] ^= 0xFF;
    assert_eq!(
        toc.accuraterip_parse_checksums(&alien),
        Err(cdtoc::TocError::Checksums)
    );

    // All-zero checksums leave nothing usable.
    let mut empty = me.clone();
    empty.extend_from_slice(&[0u8; 9 * 4]);
    assert_eq!(
        toc.accuraterip_parse_checksums(&empty),
        Err(cdtoc::TocError::NoChecksums)
    );
}

#[test]
fn t_accuraterip_url() {
    let toc = Toc::from_cdtoc("4+96+2D2B+6256+B327+D84A").unwrap();
    assert_eq!(
        toc.accuraterip_checksum_url(),
        "http://www.accuraterip.com/accuraterip/a/9/8/dBAR-004-0002189a-00087f33-1f02e004.bin",
    );
    assert_eq!(
        toc.accuraterip_id().cddb_id(),
        toc.cddb_id(),
    );
    assert_eq!(toc.accuraterip_id().audio_len(), 4u8);
}

#[test]
fn t_cddb() {
    for (t, id) in [
        (
            "D+96+3B5D+78E3+B441+EC83+134F4+17225+1A801+1EA5C+23B5B+27CEF+2B58B+2F974+35D56+514C8",
            "b611560e",
        ),
        ("4+96+2D2B+6256+B327+D84A", "1f02e004"),
        (
            "10+B6+5352+62AC+99D6+E218+12AC0+135E7+142E9+178B0+19D22+1B0D0+1E7FA+22882+247DB+27074+2A1BD+2C0FB",
            "d6096410",
        ),
        (
            "15+247E+2BEC+4AF4+7368+9704+B794+E271+110D0+12B7A+145C1+16CAF+195CF+1B40F+1F04A+21380+2362D+2589D+2793D+2A760+2DA32+300E1+32B46",
            "100a5515",
        ),
        (
            "63+96+12D9+5546+A8A2+CAAA+128BF+17194+171DF+1722A+17275+172C0+1730B+17356+173A1+173EC+17437+17482+174CD+17518+17563+175AE+175F9+17644+1768F+176DA+17725+17770+177BB+17806+17851+1789C+178E7+17932+1797D+179C8+17A13+17A5E+17AA9+17AF4+17B3F+17B8A+17BD5+17C20+17C6B+17CB6+17D01+17D4C+17D97+17DE2+17E2D+17E78+17EC3+17F0E+17F59+17FA4+17FEF+1803A+18085+180D0+1811B+18166+181B1+181FC+18247+18292+182DD+18328+18373+183BE+18409+18454+1849F+184EA+18535+18580+185CB+18616+18661+186AC+186F7+18742+1878D+187D8+18823+1886E+188B9+18904+1894F+1899A+189E5+18A30+18A7B+18AC6+18B11+18B5C+18BA7+18BF2+18C38+1ECDC+246E9",
            "cc07c363",
        ),
    ] {
        let toc = Toc::from_cdtoc(t).expect("Invalid TOC");
        let cddb_id = toc.cddb_id();
        assert_eq!(cddb_id.to_string(), id);

        // Test decoding three ways.
        assert_eq!(Cddb::decode(id), Ok(cddb_id));
        assert_eq!(Cddb::try_from(id), Ok(cddb_id));
        assert_eq!(id.parse::<Cddb>(), Ok(cddb_id));
    }
}

#[test]
fn t_ctdb() {
    for (t, id, lookup) in [
        (
            "18+B6+3CE3+7C6F+B2BD+E47F+1121C+15865+175E0+1AED9+1E159+20BF9+235FC+259EF+2826E+29B62+2ED67+311B1+3396B+36ACB+3916B+3BB75+3D60A+40AA6+422FE+48B68+4E4CB",
            "sBOUSHYC0oLdQZtAEQcmnc3V3Ak-",
            "http://db.cuetools.net/lookup2.php?version=3&ctdb=1&fuzzy=1&toc=32:15437:31705:45607:58345:70022:88015:95562:110147:123075:133987:144742:153945:164312:170700:191697:200987:211157:223797:233685:244447:251252:264720:270952:-297682:320565",
        ),
        (
            "D+96+3B5D+78E3+B441+EC83+134F4+17225+1A801+1EA5C+23B5B+27CEF+2B58B+2F974+35D56+514C8",
            "gmEsiU5wvQFA1Nq9YE_posiwgK8-",
            "http://db.cuetools.net/lookup2.php?version=3&ctdb=1&fuzzy=1&toc=0:15047:30797:45995:60397:78942:94607:108395:125382:146117:162905:177397:194782:-220352:332850",
        ),
        (
            "4+96+2D2B+6256+B327+D84A",
            "VukMWWItblELRM.CEFpXxw0FlME-",
            "http://db.cuetools.net/lookup2.php?version=3&ctdb=1&fuzzy=1&toc=0:11413:25024:45713:55220",
        ),
        (
            "10+B6+5352+62AC+99D6+E218+12AC0+135E7+142E9+178B0+19D22+1B0D0+1E7FA+22882+247DB+27074+2A1BD+2C0FB",
            "iL4EZ56YD5WmG..M4v5qzPG0cFY-",
            "http://db.cuetools.net/lookup2.php?version=3&ctdb=1&fuzzy=1&toc=32:21180:25110:39232:57730:76330:79185:82515:96282:105612:110650:124772:141292:149317:159710:172327:180325",
        ),
        (
            "15+247E+2BEC+4AF4+7368+9704+B794+E271+110D0+12B7A+145C1+16CAF+195CF+1B40F+1F04A+21380+2362D+2589D+2793D+2A760+2DA32+300E1+32B46",
            "8geCxI4CSyw_ydvHWGmPQUGF1UE-",
            "http://db.cuetools.net/lookup2.php?version=3&ctdb=1&fuzzy=1&toc=9192:11094:19038:29394:38510:46846:57819:69690:76516:83243:93209:103737:111481:126900:135914:144791:153607:161959:173770:186780:196683:207536",
        ),
        (
            "63+96+12D9+5546+A8A2+CAAA+128BF+17194+171DF+1722A+17275+172C0+1730B+17356+173A1+173EC+17437+17482+174CD+17518+17563+175AE+175F9+17644+1768F+176DA+17725+17770+177BB+17806+17851+1789C+178E7+17932+1797D+179C8+17A13+17A5E+17AA9+17AF4+17B3F+17B8A+17BD5+17C20+17C6B+17CB6+17D01+17D4C+17D97+17DE2+17E2D+17E78+17EC3+17F0E+17F59+17FA4+17FEF+1803A+18085+180D0+1811B+18166+181B1+181FC+18247+18292+182DD+18328+18373+183BE+18409+18454+1849F+184EA+18535+18580+185CB+18616+18661+186AC+186F7+18742+1878D+187D8+18823+1886E+188B9+18904+1894F+1899A+189E5+18A30+18A7B+18AC6+18B11+18B5C+18BA7+18BF2+18C38+1ECDC+246E9",
            "okpTZ4Yt2noZkGqbBLte3FfkyVs-",
            "http://db.cuetools.net/lookup2.php?version=3&ctdb=1&fuzzy=1&toc=0:4675:21680:43020:51732:75817:94462:94537:94612:94687:94762:94837:94912:94987:95062:95137:95212:95287:95362:95437:95512:95587:95662:95737:95812:95887:95962:96037:96112:96187:96262:96337:96412:96487:96562:96637:96712:96787:96862:96937:97012:97087:97162:97237:97312:97387:97462:97537:97612:97687:97762:97837:97912:97987:98062:98137:98212:98287:98362:98437:98512:98587:98662:98737:98812:98887:98962:99037:99112:99187:99262:99337:99412:99487:99562:99637:99712:99787:99862:99937:100012:100087:100162:100237:100312:100387:100462:100537:100612:100687:100762:100837:100912:100987:101062:101137:101212:101282:126022:149075",
        ),
    ] {
        let toc = Toc::from_cdtoc(t).expect("Invalid TOC");
        let ctdb_id = toc.ctdb_id();
        assert_eq!(ctdb_id.to_string(), id);
        assert_eq!(toc.ctdb_checksum_url(), lookup);

        // Test decoding three ways.
        assert_eq!(ShaB64::decode(id), Ok(ctdb_id.clone()));
        assert_eq!(ShaB64::try_from(id), Ok(ctdb_id.clone()));
        assert_eq!(id.parse::<ShaB64>(), Ok(ctdb_id));
    }
}

#[test]
fn t_musicbrainz() {
    for (t, id) in [
        (
            "18+B6+3CE3+7C6F+B2BD+E47F+1121C+15865+175E0+1AED9+1E159+20BF9+235FC+259EF+2826E+29B62+2ED67+311B1+3396B+36ACB+3916B+3BB75+3D60A+40AA6+422FE+48B68+4E4CB",
            "eLuEIkHsua.iJpetabxqYM9SIbk-",
        ),
        (
            "D+96+3B5D+78E3+B441+EC83+134F4+17225+1A801+1EA5C+23B5B+27CEF+2B58B+2F974+35D56+514C8",
            "ucgpiD84p.2iBxO4j3hdjSjhtnw-",
        ),
        ("4+96+2D2B+6256+B327+D84A", "nljDXdC8B_pDwbdY1vZJvdrAZI4-"),
        (
            "10+B6+5352+62AC+99D6+E218+12AC0+135E7+142E9+178B0+19D22+1B0D0+1E7FA+22882+247DB+27074+2A1BD+2C0FB",
            "PQ02DnwdDaxgWEFSpAzI_IVBL3o-",
        ),
        (
            "15+247E+2BEC+4AF4+7368+9704+B794+E271+110D0+12B7A+145C1+16CAF+195CF+1B40F+1F04A+21380+2362D+2589D+2793D+2A760+2DA32+300E1+32B46",
            "JTsyXbyn9DUbppDWELj5o5CiFaI-",
        ),
        (
            "63+96+12D9+5546+A8A2+CAAA+128BF+17194+171DF+1722A+17275+172C0+1730B+17356+173A1+173EC+17437+17482+174CD+17518+17563+175AE+175F9+17644+1768F+176DA+17725+17770+177BB+17806+17851+1789C+178E7+17932+1797D+179C8+17A13+17A5E+17AA9+17AF4+17B3F+17B8A+17BD5+17C20+17C6B+17CB6+17D01+17D4C+17D97+17DE2+17E2D+17E78+17EC3+17F0E+17F59+17FA4+17FEF+1803A+18085+180D0+1811B+18166+181B1+181FC+18247+18292+182DD+18328+18373+183BE+18409+18454+1849F+184EA+18535+18580+185CB+18616+18661+186AC+186F7+18742+1878D+187D8+18823+1886E+188B9+18904+1894F+1899A+189E5+18A30+18A7B+18AC6+18B11+18B5C+18BA7+18BF2+18C38+1ECDC+246E9",
            "efFU9TD0IyDF3iME6KlK.rZJEaw-",
        ),
    ] {
        let toc = Toc::from_cdtoc(t).expect("Invalid TOC");
        let mb_id = toc.musicbrainz_id();
        assert_eq!(mb_id.to_string(), id);

        // Test decoding three ways.
        assert_eq!(ShaB64::decode(id), Ok(mb_id.clone()));
        assert_eq!(ShaB64::try_from(id), Ok(mb_id.clone()));
        assert_eq!(id.parse::<ShaB64>(), Ok(mb_id));
    }
}

#[test]
fn t_decode_errors() {
    assert_eq!(Cddb::decode("1f02e00"), Err(TocError::CddbDecode));
    assert_eq!(Cddb::decode("1f02e00g"), Err(TocError::CddbDecode));
    assert_eq!(
        AccurateRip::decode("04-0002189a-00087f33-1f02e004"),
        Err(TocError::AccurateRipDecode)
    );
    assert_eq!(
        AccurateRip::decode("004+0002189a-00087f33-1f02e004"),
        Err(TocError::AccurateRipDecode)
    );
    assert_eq!(
        ShaB64::decode("VukMWWItblELRM.CEFpXxw0FlME"),
        Err(TocError::ShaB64Decode)
    );
    assert_eq!(
        ShaB64::decode("VukMWWItblELRM,CEFpXxw0FlME-"),
        Err(TocError::ShaB64Decode)
    );
}

#[test]
fn t_ctdb_parse() {
    let toc = Toc::from_cdtoc("4+96+2D2B+6256+B327+D84A").unwrap();
    let xml = "<ctdb>\n  <entry id=\"1\" confidence=\"23\" trackcrcs=\"aabbccdd 00000000 1f 2E2e2E2e\" />\n  not an entry\n  <entry confidence=\"2\" trackcrcs=\"aabbccdd 1 0 0\"/>\n</ctdb>";
    let parsed = toc.ctdb_parse_checksums(xml).expect("Checksum parsing failed.");
    assert_eq!(parsed.len(), 4);
    // Track one saw the same value twice; confidences add up.
    assert_eq!(parsed[0], vec![(0xAABBCCDD_u32, 25_u16)]);
    // A zero checksum means no data.
    assert_eq!(parsed[1], vec![(1u32, 2u16)]);
    assert_eq!(parsed[2], vec![(0x1F_u32, 23_u16)]);
    assert_eq!(parsed[3], vec![(0x2E2E2E2E_u32, 23_u16)]);

    // A track-count mismatch is an error.
    assert!(matches!(
        toc.ctdb_parse_checksums("<entry confidence=\"1\" trackcrcs=\"aa bb\"/>"),
        Err(TocError::Checksums)
    ));
    // A malformed checksum too.
    assert!(matches!(
        toc.ctdb_parse_checksums("<entry confidence=\"1\" trackcrcs=\"aa bb cc zz\"/>"),
        Err(TocError::Checksums)
    ));
    // A malformed confidence too.
    assert!(matches!(
        toc.ctdb_parse_checksums("<entry confidence=\"x\" trackcrcs=\"aa bb cc dd\"/>"),
        Err(TocError::Checksums)
    ));
    // No usable checksums at all.
    assert!(matches!(
        toc.ctdb_parse_checksums("<nothing here/>"),
        Err(TocError::NoChecksums)
    ));
}
