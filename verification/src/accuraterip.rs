//! The AccurateRip identifier: a track count, two offset checksums, and an
//! embedded CDDB value, with its display form, checksum URL, and the parsers
//! for the service's binary checksum and drive-offset manifests.

use vstd::prelude::*;

use crate::Cddb;
use crate::Toc;
use crate::TocError;
use crate::TocView;
use crate::cddb::cddb_of;
use crate::sub_sat;
use crate::text::all_dec;
use crate::text::dec_fixed;
use crate::text::dec_group_val;
use crate::text::hex_digit_lower;
use crate::text::hex_fixed_lower;
use crate::text::hex_group_val;
use crate::text::hex_lower_char;
use crate::text::is_hex_group;
use crate::text::lemma_dec_fixed;
use crate::text::lemma_hex_fixed_lower;
use crate::text::lemma_hex_group_val_bound;
use crate::text::lemma_pow16_values;
use crate::text::parse_dec;
use crate::text::parse_hex;
use crate::text::pow10;
use crate::text::push_char;
use crate::text::push_dec3;
use crate::text::push_hex8_lower;
use crate::text::to_chars;
use crate::text::trim_ctl;
use crate::text::trim_ctl_range;
use crate::text::chars_to_string;
use vstd::string::StringExecFns;

verus! {

/// The mathematical content of an [`AccurateRip`] identifier.
#[verifier::ext_equal]
pub ghost struct AccurateRipView {
    /// The audio track count.
    pub tracks: u8,
    /// The plain sum of leadin-adjusted offsets, modulo 2^32.
    pub b: u32,
    /// The index-weighted sum of leadin-adjusted offsets, modulo 2^32.
    pub c: u32,
    /// The packed CDDB value.
    pub cddb: u32,
}

/// A sector's offset past the mandatory 150-sector leadin, floored at zero.
pub open spec fn ar_off(v: u32) -> int {
    sub_sat(v, 150) as int
}

/// An offset floored at one, as the weighted sum demands.
pub open spec fn ar_off1(v: u32) -> int {
    if ar_off(v) == 0 {
        1
    } else {
        ar_off(v)
    }
}

/// The plain sum of the offsets of `audio`.
pub open spec fn ar_sum(audio: Seq<u32>) -> int
    decreases audio.len(),
{
    if audio.len() == 0 {
        0
    } else {
        ar_sum(audio.drop_last()) + ar_off(audio.last())
    }
}

/// The index-weighted sum of the offsets of `audio`: track `i` (from one)
/// contributes `i` times its offset floored at one.
pub open spec fn ar_wsum(audio: Seq<u32>) -> int
    decreases audio.len(),
{
    if audio.len() == 0 {
        0
    } else {
        ar_wsum(audio.drop_last()) + ar_off1(audio.last()) * audio.len()
    }
}

/// The first checksum: offsets plus the leadout offset, modulo 2^32.
pub open spec fn ar_b(v: TocView) -> u32 {
    ((ar_sum(v.audio) + ar_off(v.leadout)) % 0x100000000) as u32
}

/// The second checksum: weighted offsets plus the leadout offset weighted
/// one past the track count, modulo 2^32.
pub open spec fn ar_c(v: TocView) -> u32 {
    ((ar_wsum(v.audio) + ar_off1(v.leadout) * (v.audio.len() + 1)) % 0x100000000) as u32
}

/// An AccurateRip identifier.
#[derive(Debug, Clone, Copy, PartialEq, Eq, Hash, Structural)]
pub struct AccurateRip {
    /// The audio track count.
    tracks: u8,
    /// The plain offset checksum.
    b: u32,
    /// The weighted offset checksum.
    c: u32,
    /// The packed CDDB value.
    cddb: u32,
}

impl View for AccurateRip {
    type V = AccurateRipView;

    closed spec fn view(&self) -> AccurateRipView {
        AccurateRipView { tracks: self.tracks, b: self.b, c: self.c, cddb: self.cddb }
    }
}

// ---------------------------------------------------------------------------
// Rendering and decoding.
// ---------------------------------------------------------------------------
/// The display form: three decimal digits of track count and three groups of
/// eight lowercase hex digits, dash-separated.
pub open spec fn ar_str(t: AccurateRipView) -> Seq<char> {
    dec_fixed(t.tracks as nat, 3) + seq!['-'] + hex_fixed_lower(t.b as nat, 8) + seq!['-']
        + hex_fixed_lower(t.c as nat, 8) + seq!['-'] + hex_fixed_lower(t.cddb as nat, 8)
}

/// Whether a string decodes as an AccurateRip identifier: exactly 30
/// characters with dashes at 3, 12 and 21, a three-digit decimal track count
/// no higher than 255, and three eight-digit hex groups.
pub open spec fn ar_decode_ok(s: Seq<char>) -> bool {
    &&& s.len() == 30
    &&& s[3] == '-'
    &&& s[12] == '-'
    &&& s[21] == '-'
    &&& all_dec(s.subrange(0, 3))
    &&& dec_group_val(s.subrange(0, 3)) <= 255
    &&& is_hex_group(s.subrange(4, 12), 8)
    &&& is_hex_group(s.subrange(13, 21), 8)
    &&& is_hex_group(s.subrange(22, 30), 8)
}

/// The fields a decodable string yields.
pub open spec fn ar_decoded(s: Seq<char>) -> AccurateRipView {
    AccurateRipView {
        tracks: dec_group_val(s.subrange(0, 3)) as u8,
        b: hex_group_val(s.subrange(4, 12)) as u32,
        c: hex_group_val(s.subrange(13, 21)) as u32,
        cddb: hex_group_val(s.subrange(22, 30)) as u32,
    }
}

/// The 13-byte binary form: the track count, then each checksum and the
/// CDDB value as four little-endian bytes.
pub open spec fn le4(n: u32) -> Seq<u8> {
    seq![
        (n % 256) as u8,
        ((n / 256) % 256) as u8,
        ((n / 65536) % 256) as u8,
        ((n / 16777216) % 256) as u8,
    ]
}

/// The binary form of a whole identifier.
pub open spec fn ar_bytes(t: AccurateRipView) -> Seq<u8> {
    seq![t.tracks] + le4(t.b) + le4(t.c) + le4(t.cddb)
}

impl AccurateRip {
    /// The audio track count.
    pub fn audio_len(&self) -> (r: u8)
        ensures
            r == self@.tracks,
    {
        self.tracks
    }

    /// The CDDB identifier embedded in this one.
    pub fn cddb_id(&self) -> (r: Cddb)
        ensures
            r@ == self@.cddb,
    {
        Cddb::from_value(self.cddb)
    }

    /// The 13-byte binary form, as the checksum manifests carry it.
    pub fn to_bytes(&self) -> (r: Vec<u8>)
        ensures
            r@ == ar_bytes(self@),
    {
        let mut out: Vec<u8> = Vec::new();
        out.push(self.tracks);
        push_le4(&mut out, self.b);
        push_le4(&mut out, self.c);
        push_le4(&mut out, self.cddb);
        proof {
            assert(out@ =~= ar_bytes(self@));
        }
        out
    }

    /// Render the display form: `NNN-xxxxxxxx-xxxxxxxx-xxxxxxxx`.
    pub fn to_string(&self) -> (r: String)
        ensures
            r@ == ar_str(self@),
    {
        let mut out = String::new();
        push_dec3(&mut out, self.tracks);
        push_char(&mut out, '-');
        push_hex8_lower(&mut out, self.b);
        push_char(&mut out, '-');
        push_hex8_lower(&mut out, self.c);
        push_char(&mut out, '-');
        push_hex8_lower(&mut out, self.cddb);
        proof {
            assert(out@ =~= ar_str(self@));
        }
        out
    }

    /// Decode the display form back into an identifier; any width or
    /// character out of place is refused.
    pub fn decode(src: &str) -> (r: Result<Self, TocError>)
        ensures
            ar_decode_ok(src@) ==> (r matches Ok(x) && x@ == ar_decoded(src@)),
            !ar_decode_ok(src@) ==> r == Err::<AccurateRip, _>(TocError::AccurateRipDecode),
    {
        let v = to_chars(src);
        if v.len() != 30 {
            return Err(TocError::AccurateRipDecode);
        }
        if !(v[3] == '-' && v[12] == '-' && v[21] == '-') {
            return Err(TocError::AccurateRipDecode);
        }
        let tracks = match parse_dec(&v, 0, 3, 255) {
            Some(n) => n as u8,
            None => {
                return Err(TocError::AccurateRipDecode);
            },
        };
        let b = match parse_hex(&v, 4, 12, 8) {
            Some(n) => n as u32,
            None => {
                return Err(TocError::AccurateRipDecode);
            },
        };
        let c = match parse_hex(&v, 13, 21, 8) {
            Some(n) => n as u32,
            None => {
                return Err(TocError::AccurateRipDecode);
            },
        };
        let d = match parse_hex(&v, 22, 30, 8) {
            Some(n) => n as u32,
            None => {
                return Err(TocError::AccurateRipDecode);
            },
        };
        proof {
            lemma_pow16_values();
            lemma_hex_group_val_bound(v@.subrange(4, 12));
            lemma_hex_group_val_bound(v@.subrange(13, 21));
            lemma_hex_group_val_bound(v@.subrange(22, 30));
            assert(ar_decode_ok(v@));
        }
        Ok(AccurateRip { tracks, b, c, cddb: d })
    }

    /// The URL of the disc's checksum manifest: sharded by the three low hex
    /// digits of the first checksum, then the full display form.
    pub fn checksum_url(&self) -> (r: String)
        ensures
            r@ == ar_url(self@),
    {
        let mut out = String::from_str("http://www.accuraterip.com/accuraterip/");
        push_char(&mut out, hex_lower_char((self.b % 16) as u8));
        push_char(&mut out, '/');
        push_char(&mut out, hex_lower_char(((self.b / 16) % 16) as u8));
        push_char(&mut out, '/');
        push_char(&mut out, hex_lower_char(((self.b / 256) % 16) as u8));
        out.append("/dBAR-");
        let id = self.to_string();
        out.append(id.as_str());
        out.append(".bin");
        proof {
            assert(out@ =~= ar_url(self@));
        }
        out
    }
}

/// The checksum manifest URL: the fixed host path, one shard directory per
/// low hex digit of the first checksum (lowest first), then `dBAR-`, the
/// display form, and `.bin`.
pub open spec fn ar_url(t: AccurateRipView) -> Seq<char> {
    "http://www.accuraterip.com/accuraterip/"@ + seq![
        hex_digit_lower((t.b % 16) as nat),
        '/',
        hex_digit_lower(((t.b / 16) % 16) as nat),
        '/',
        hex_digit_lower(((t.b / 256) % 16) as nat),
    ] + "/dBAR-"@ + ar_str(t) + ".bin"@
}

/// Append the four little-endian bytes of `n`.
fn push_le4(out: &mut Vec<u8>, n: u32)
    ensures
        final(out)@ == old(out)@ + le4(n),
{
    out.push((n % 256) as u8);
    out.push(((n / 256) % 256) as u8);
    out.push(((n / 65536) % 256) as u8);
    out.push(((n / 16777216) % 256) as u8);
    proof {
        assert(final(out)@ =~= old(out)@ + le4(n));
    }
}

impl core::str::FromStr for AccurateRip {
    type Err = TocError;

    fn from_str(src: &str) -> Result<Self, Self::Err> {
        Self::decode(src)
    }
}

impl TryFrom<&str> for AccurateRip {
    type Error = TocError;

    fn try_from(src: &str) -> Result<Self, Self::Error> {
        Self::decode(src)
    }
}

impl vstd::std_specs::convert::TryFromSpecImpl<&str> for AccurateRip {
    open spec fn obeys_try_from_spec() -> bool {
        false
    }

    open spec fn try_from_spec(v: &str) -> Result<Self, TocError> {
        Err(TocError::AccurateRipDecode)
    }
}

/// Rendering an identifier and decoding the result restores it bit for bit.
pub proof fn lemma_accuraterip_round_trip(t: AccurateRipView)
    ensures
        ar_decode_ok(ar_str(t)),
        ar_decoded(ar_str(t)) == t,
{
    let s = ar_str(t);
    lemma_pow16_values();
    assert(pow10(3) == 1000) by {
        assert(pow10(0) == 1);
        assert(pow10(1) == 10);
        assert(pow10(2) == 100);
    }
    lemma_dec_fixed(t.tracks as nat, 3);
    lemma_hex_fixed_lower(t.b as nat, 8);
    lemma_hex_fixed_lower(t.c as nat, 8);
    lemma_hex_fixed_lower(t.cddb as nat, 8);
    assert(s.subrange(0, 3) =~= dec_fixed(t.tracks as nat, 3));
    assert(s.subrange(4, 12) =~= hex_fixed_lower(t.b as nat, 8));
    assert(s.subrange(13, 21) =~= hex_fixed_lower(t.c as nat, 8));
    assert(s.subrange(22, 30) =~= hex_fixed_lower(t.cddb as nat, 8));
    assert(ar_decoded(s) =~= t);
}

// ---------------------------------------------------------------------------
// Deriving the identifier from a table of contents.
// ---------------------------------------------------------------------------
impl Toc {
    /// The AccurateRip identifier for this table of contents.
    pub fn accuraterip_id(&self) -> (r: AccurateRip)
        requires
            self@.wf(),
        ensures
            r@.tracks == self@.audio.len(),
            r@.b == ar_b(self@),
            r@.c == ar_c(self@),
            r@.cddb == cddb_of(self@),
    {
        let sectors = self.audio_sectors();
        let len = sectors.len();
        let mut b: u64 = 0;
        let mut c: u64 = 0;
        let mut i: usize = 0;
        while i < len
            invariant
                i <= len,
                len == self@.audio.len() <= 99,
                sectors@ == self@.audio,
                b == ar_sum(self@.audio.subrange(0, i as int)),
                b <= i * 0x100000000,
                c == ar_wsum(self@.audio.subrange(0, i as int)),
                c <= i * 100 * 0x100000000,
            decreases len - i,
        {
            let off = sectors[i].saturating_sub(150);
            let w: u64 = if off == 0 {
                1
            } else {
                off as u64
            };
            proof {
                assert(self@.audio.subrange(0, i + 1).drop_last() =~= self@.audio.subrange(
                    0,
                    i as int,
                ));
                assert(self@.audio.subrange(0, i + 1).last() == self@.audio[i as int]);
                assert(w * ((i + 1) as u64) <= 0x100000000 * 100) by (nonlinear_arith)
                    requires
                        w <= 0x100000000,
                        i + 1 <= 100,
                ;
                assert(c + w * ((i + 1) as u64) <= (i + 1) * 100 * 0x100000000) by (nonlinear_arith)
                    requires
                        c <= i * 100 * 0x100000000,
                        w * ((i + 1) as u64) <= 0x100000000 * 100,
                        0 <= i,
                ;
            }
            b = b + (off as u64);
            c = c + w * ((i + 1) as u64);
            proof {
                assert(b <= (i + 1) * 0x100000000) by (nonlinear_arith)
                    requires
                        b <= i * 0x100000000 + 0x100000000,
                        0 <= i,
                ;
            }
            i = i + 1;
        }
        proof {
            assert(self@.audio.subrange(0, len as int) =~= self@.audio);
        }
        let lead_off = self.leadout().saturating_sub(150);
        let lead_w: u64 = if lead_off == 0 {
            1
        } else {
            lead_off as u64
        };
        proof {
            assert(lead_w * ((len + 1) as u64) <= 0x100000000 * 100) by (nonlinear_arith)
                requires
                    lead_w <= 0x100000000,
                    len + 1 <= 100,
            ;
        }
        let b_final = ((b + lead_off as u64) % 0x100000000) as u32;
        let c_final = ((c + lead_w * ((len + 1) as u64)) % 0x100000000) as u32;
        let cddb = self.cddb_id();
        AccurateRip { tracks: len as u8, b: b_final, c: c_final, cddb: cddb.value() }
    }

    /// The URL of this disc's AccurateRip checksum manifest.
    pub fn accuraterip_checksum_url(&self) -> (r: String)
        requires
            self@.wf(),
        ensures
            ({
                let t = AccurateRipView {
                    tracks: self@.audio.len() as u8,
                    b: ar_b(self@),
                    c: ar_c(self@),
                    cddb: cddb_of(self@),
                };
                r@ == ar_url(t)
            }),
    {
        let id = self.accuraterip_id();
        proof {
            assert(id@ =~= AccurateRipView {
                tracks: self@.audio.len() as u8,
                b: ar_b(self@),
                c: ar_c(self@),
                cddb: cddb_of(self@),
            });
        }
        id.checksum_url()
    }
}

// ---------------------------------------------------------------------------
// The drive-offset manifest.
// ---------------------------------------------------------------------------
/// The mathematical content of a [`DriveOffset`] record.
#[verifier::ext_equal]
pub ghost struct DriveOffsetView {
    /// The drive vendor; possibly empty.
    pub vendor: Seq<char>,
    /// The drive model; never empty.
    pub model: Seq<char>,
    /// The read offset, in samples.
    pub offset: i16,
}

/// One drive's read offset, keyed by vendor and model.
#[derive(Debug, Clone)]
pub struct DriveOffset {
    /// The drive vendor; possibly empty.
    pub vendor: String,
    /// The drive model; never empty.
    pub model: String,
    /// The read offset, in samples.
    pub offset: i16,
}

impl View for DriveOffset {
    type V = DriveOffsetView;

    open spec fn view(&self) -> DriveOffsetView {
        DriveOffsetView { vendor: self.vendor@, model: self.model@, offset: self.offset }
    }
}

/// The views of a sequence of records.
pub open spec fn offsets_views(s: Seq<DriveOffset>) -> Seq<DriveOffsetView> {
    Seq::new(s.len(), |i: int| s[i]@)
}

/// The signed little-endian value of two bytes.
pub open spec fn le16_signed(b0: u8, b1: u8) -> int {
    let u = b0 + 256 * (b1 as int);
    if u < 32768 {
        u
    } else {
        u - 65536
    }
}

/// The 32 vendor/model text bytes of a record, as characters.
pub open spec fn vm_chars(chunk: Seq<u8>) -> Seq<char> {
    Seq::new(32, |i: int| chunk[2 + i] as char)
}

/// Whether positions `j..j+3` of `s` hold the ` - ` delimiter.
pub open spec fn is_sep_at(s: Seq<char>, j: int) -> bool {
    s[j] == ' ' && s[j + 1] == '-' && s[j + 2] == ' '
}

/// The first ` - ` delimiter at or past `j`, or -1.
pub open spec fn find_sep_from(s: Seq<char>, j: int) -> int
    decreases s.len() - j,
{
    if j < 0 || j + 3 > s.len() {
        -1
    } else if is_sep_at(s, j) {
        j
    } else {
        find_sep_from(s, j + 1)
    }
}

/// What one 69-byte record yields: a vendor/model/offset triple, nothing for
/// a record without a model, or the decode error for non-ASCII text, an
/// offset outside the ±2940 window, or over-long names.
pub open spec fn record_outcome(chunk: Seq<u8>) -> Result<Option<DriveOffsetView>, TocError> {
    let offset = le16_signed(chunk[0], chunk[1]);
    if exists|i: int| 2 <= i < 34 && #[trigger] chunk[i] >= 128 {
        Err(TocError::DriveOffsetDecode)
    } else {
        let vm = vm_chars(chunk);
        let vendor = if vm[0] == '-' && vm[1] == ' ' {
            Seq::<char>::empty()
        } else {
            let f = find_sep_from(vm, 0);
            if f == -1 {
                trim_ctl(vm)
            } else {
                trim_ctl(vm.subrange(0, f))
            }
        };
        let model = if vm[0] == '-' && vm[1] == ' ' {
            trim_ctl(vm.subrange(2, 32))
        } else {
            let f = find_sep_from(vm, 0);
            if f == -1 {
                Seq::<char>::empty()
            } else {
                trim_ctl(vm.subrange(f + 3, 32))
            }
        };
        if model.len() == 0 {
            Ok(None)
        } else if -2940 <= offset <= 2940 && vendor.len() <= 8 && model.len() <= 16 {
            Ok(Some(DriveOffsetView { vendor, model, offset: offset as i16 }))
        } else {
            Err(TocError::DriveOffsetDecode)
        }
    }
}

/// Insert a record, replacing any earlier record with the same vendor and
/// model.
pub open spec fn upsert_offset(m: Seq<DriveOffsetView>, r: DriveOffsetView) -> Seq<DriveOffsetView>
    decreases m.len(),
{
    if m.len() == 0 {
        seq![r]
    } else if m[0].vendor == r.vendor && m[0].model == r.model {
        seq![r] + m.drop_first()
    } else {
        seq![m[0]] + upsert_offset(m.drop_first(), r)
    }
}

/// Keys untouched by an upsert pass straight through.
proof fn lemma_upsert_offset_skip(m: Seq<DriveOffsetView>, r: DriveOffsetView, i: int)
    requires
        0 <= i <= m.len(),
        forall|j: int| 0 <= j < i ==> !(#[trigger] m[j].vendor == r.vendor && m[j].model == r.model),
    ensures
        upsert_offset(m, r) == m.subrange(0, i) + upsert_offset(m.subrange(i, m.len() as int), r),
    decreases i,
{
    if i == 0 {
        assert(m.subrange(0, m.len() as int) =~= m);
        assert(upsert_offset(m, r) =~= m.subrange(0, 0) + upsert_offset(m, r));
    } else {
        assert(m.len() > 0);
        assert(!(m[0].vendor == r.vendor && m[0].model == r.model));
        lemma_upsert_offset_skip(m.drop_first(), r, i - 1);
        assert(m.drop_first().subrange(0, i - 1) =~= m.subrange(1, i));
        assert(m.drop_first().subrange(i - 1, m.drop_first().len() as int) =~= m.subrange(
            i,
            m.len() as int,
        ));
        assert(upsert_offset(m, r) == seq![m[0]] + upsert_offset(m.drop_first(), r));
        assert(seq![m[0]] + (m.subrange(1, i) + upsert_offset(m.subrange(i, m.len() as int), r))
            =~= m.subrange(0, i) + upsert_offset(m.subrange(i, m.len() as int), r));
    }
}

/// A fold that has failed stays failed.
proof fn lemma_offsets_fold_err(raw: Seq<u8>, j: nat, j2: nat)
    requires
        j <= j2,
        offsets_fold(raw, j) is Err,
    ensures
        offsets_fold(raw, j2) == offsets_fold(raw, j),
    decreases j2 - j,
{
    if j < j2 {
        lemma_offsets_fold_err(raw, j, (j2 - 1) as nat);
    }
}

/// The manifest folded record by record: stop at the first bad record, skip
/// model-less ones, and let later records replace earlier keys.
pub open spec fn offsets_fold(raw: Seq<u8>, k: nat) -> Result<Seq<DriveOffsetView>, TocError>
    decreases k,
{
    if k == 0 {
        Ok(Seq::empty())
    } else {
        match offsets_fold(raw, (k - 1) as nat) {
            Err(e) => Err(e),
            Ok(m) => match record_outcome(raw.subrange(69 * (k - 1), 69 * k as int)) {
                Err(e) => Err(e),
                Ok(None) => Ok(m),
                Ok(Some(rec)) => Ok(upsert_offset(m, rec)),
            },
        }
    }
}

/// What the whole manifest yields: its records in first-appearance order
/// (any trailing partial record ignored), or an error for a bad record or an
/// empty result.
pub open spec fn drive_offsets_outcome(raw: Seq<u8>) -> Result<Seq<DriveOffsetView>, TocError> {
    if raw.len() < 69 {
        Err(TocError::NoDriveOffsets)
    } else {
        match offsets_fold(raw, (raw.len() / 69) as nat) {
            Err(e) => Err(e),
            Ok(m) => if m.len() == 0 {
                Err(TocError::NoDriveOffsets)
            } else {
                Ok(m)
            },
        }
    }
}

/// Replace any record sharing `rec`'s vendor and model, or append it.
fn upsert_offset_exec(out: &mut Vec<DriveOffset>, rec: DriveOffset)
    ensures
        offsets_views(final(out)@) == upsert_offset(offsets_views(old(out)@), rec@),
{
    let ghost m = offsets_views(out@);
    let ghost rv = rec@;
    let len = out.len();
    let mut i: usize = 0;
    while i < len
        invariant
            i <= len,
            len == out@.len(),
            out@ == old(out)@,
            m == offsets_views(out@),
            rv == rec@,
            forall|j: int|
                0 <= j < i ==> !(#[trigger] m[j].vendor == rv.vendor && m[j].model == rv.model),
        decreases len - i,
    {
        if out[i].vendor == rec.vendor && out[i].model == rec.model {
            proof {
                lemma_upsert_offset_skip(m, rv, i as int);
                assert(upsert_offset(m.subrange(i as int, m.len() as int), rv) == seq![rv]
                    + m.subrange(i as int, m.len() as int).drop_first());
            }
            out.set(i, rec);
            proof {
                assert(offsets_views(out@) =~= m.subrange(0, i as int) + (seq![rv] + m.subrange(
                    i + 1,
                    m.len() as int,
                )));
                assert(m.subrange(i as int, m.len() as int).drop_first() =~= m.subrange(
                    i + 1,
                    m.len() as int,
                ));
                assert(offsets_views(out@) =~= upsert_offset(m, rv));
            }
            return ;
        }
        i = i + 1;
    }
    proof {
        lemma_upsert_offset_skip(m, rv, len as int);
        assert(m.subrange(len as int, m.len() as int) =~= Seq::<DriveOffsetView>::empty());
        assert(upsert_offset(Seq::<DriveOffsetView>::empty(), rv) == seq![rv]);
    }
    out.push(rec);
    proof {
        assert(offsets_views(out@) =~= m.subrange(0, len as int) + seq![rv]);
        assert(m.subrange(0, len as int) =~= m);
    }
}

impl AccurateRip {
    /// Parse the binary drive-offset manifest: 69-byte records of a signed
    /// little-endian offset, 32 bytes of vendor/model text, and ignored
    /// padding. Records without a model are skipped; later records replace
    /// earlier ones with the same vendor and model.
    #[verifier::rlimit(100)]
    pub fn parse_drive_offsets(raw: &[u8]) -> (r: Result<Vec<DriveOffset>, TocError>)
        ensures
            match r {
                Ok(v) => drive_offsets_outcome(raw@) == Ok::<_, TocError>(offsets_views(v@)),
                Err(e) => drive_offsets_outcome(raw@) == Err::<Seq<DriveOffsetView>, TocError>(e),
            },
    {
        let total = raw.len();
        if total < 69 {
            return Err(TocError::NoDriveOffsets);
        }
        let blocks = total / 69;
        let mut out: Vec<DriveOffset> = Vec::new();
        let mut k: usize = 0;
        proof {
            assert(offsets_views(out@) =~= Seq::<DriveOffsetView>::empty());
        }
        while k < blocks
            invariant
                k <= blocks,
                total == raw@.len(),
                blocks == raw@.len() / 69,
                raw@.len() >= 69,
                offsets_fold(raw@, k as nat) == Ok::<_, TocError>(offsets_views(out@)),
            decreases blocks - k,
        {
            proof {
                assert(k * 69 + 69 <= total) by (nonlinear_arith)
                    requires
                        k < blocks,
                        blocks == total / 69,
                        total >= 69,
                ;
            }
            let base = k * 69;
            let ghost chunk = raw@.subrange(base as int, base + 69);
            proof {
                assert(69 * (k as int) == base);
                assert(69 * ((k + 1) as int) == base + 69);
            }
            match parse_record(raw, base) {
                Err(e) => {
                    proof {
                        assert(offsets_fold(raw@, (k + 1) as nat) == Err::<
                            Seq<DriveOffsetView>,
                            TocError,
                        >(e));
                        lemma_offsets_fold_err(raw@, (k + 1) as nat, (raw@.len() / 69) as nat);
                    }
                    return Err(e);
                },
                Ok(None) => {},
                Ok(Some(rec)) => {
                    upsert_offset_exec(&mut out, rec);
                },
            }
            k = k + 1;
        }
        if out.len() == 0 {
            return Err(TocError::NoDriveOffsets);
        }
        Ok(out)
    }
}

/// Parse the 69-byte record at `base`, exactly as [`record_outcome`] states.
fn parse_record(raw: &[u8], base: usize) -> (r: Result<Option<DriveOffset>, TocError>)
    requires
        base + 69 <= raw@.len(),
    ensures
        ({
            let chunk = raw@.subrange(base as int, base + 69);
            match r {
                Ok(Some(rec)) => record_outcome(chunk) == Ok::<_, TocError>(Some(rec@)),
                Ok(None) => record_outcome(chunk) == Ok::<Option<DriveOffsetView>, TocError>(None),
                Err(e) => record_outcome(chunk) == Err::<Option<DriveOffsetView>, TocError>(e),
            }
        }),
{
    let ghost chunk = raw@.subrange(base as int, base + 69);
    let total = raw.len();
    // The offset comes first, little-endian and signed.
    let u: u32 = raw[base] as u32 + 256 * (raw[base + 1] as u32);
    let signed: i32 = if u >= 32768 {
        u as i32 - 65536
    } else {
        u as i32
    };
    proof {
        assert(chunk[0] == raw@[base as int]);
        assert(chunk[1] == raw@[base + 1]);
        assert(signed == le16_signed(chunk[0], chunk[1]));
    }
    // The vendor/model text must be ASCII.
    let mut vm: Vec<char> = Vec::new();
    let mut i: usize = 0;
    while i < 32
        invariant
            i <= 32,
            base + 69 <= total,
            total == raw@.len(),
            chunk == raw@.subrange(base as int, base + 69),
            vm@.len() == i,
            forall|j: int| 0 <= j < i ==> #[trigger] chunk[2 + j] < 128,
            forall|j: int| 0 <= j < i ==> #[trigger] vm@[j] == (chunk[2 + j] as char),
        decreases 32 - i,
    {
        let b = raw[base + 2 + i];
        proof {
            assert(chunk[2 + i] == raw@[base + 2 + i]);
        }
        if b >= 128 {
            return Err(TocError::DriveOffsetDecode);
        }
        vm.push(b as char);
        i = i + 1;
    }
    proof {
        assert forall|j: int| 0 <= j < 32 implies vm@[j] == vm_chars(chunk)[j] by {
            assert(vm@[j] == (chunk[2 + j] as char));
        }
        assert(vm@ =~= vm_chars(chunk));
        assert forall|j: int| 2 <= j < 34 implies #[trigger] chunk[j] < 128 by {
            assert(chunk[2 + (j - 2)] < 128);
        }
    }
    // Split vendor from model around the inconsistent delimiter.
    let dash_first = vm[0] == '-' && vm[1] == ' ';
    let mut sep: i32 = -1;
    if !dash_first {
        let mut j: usize = 0;
        while j + 3 <= 32 && sep == -1
            invariant
                j <= 32,
                vm@.len() == 32,
                sep == -1 || (0 <= sep <= 29 && sep == find_sep_from(vm@, 0)),
                sep == -1 ==> find_sep_from(vm@, 0) == find_sep_from(vm@, j as int),
            decreases 32 - j + (if sep == -1 {
                1int
            } else {
                0int
            }),
        {
            if vm[j] == ' ' && vm[j + 1] == '-' && vm[j + 2] == ' ' {
                sep = j as i32;
            } else {
                j = j + 1;
            }
        }
        proof {
            if sep == -1 {
                assert(find_sep_from(vm@, 0) == -1);
            }
        }
    }
    let (vs, ve) = if dash_first {
        (0, 0)
    } else if sep >= 0 {
        trim_ctl_range(&vm, 0, sep as usize)
    } else {
        trim_ctl_range(&vm, 0, 32)
    };
    let (ms, me) = if dash_first {
        trim_ctl_range(&vm, 2, 32)
    } else if sep >= 0 {
        trim_ctl_range(&vm, sep as usize + 3, 32)
    } else {
        (0, 0)
    };
    let ghost vendor_spec = if dash_first {
        Seq::<char>::empty()
    } else if find_sep_from(vm@, 0) == -1 {
        trim_ctl(vm@)
    } else {
        trim_ctl(vm@.subrange(0, find_sep_from(vm@, 0)))
    };
    let ghost model_spec = if dash_first {
        trim_ctl(vm@.subrange(2, 32))
    } else if find_sep_from(vm@, 0) == -1 {
        Seq::<char>::empty()
    } else {
        trim_ctl(vm@.subrange(find_sep_from(vm@, 0) + 3, 32))
    };
    proof {
        if !dash_first && sep == -1 {
            assert(vm@.subrange(0, 32) =~= vm@);
        }
        assert(vm@.subrange(vs as int, ve as int) == vendor_spec || (dash_first && vendor_spec
            =~= vm@.subrange(0, 0)));
        assert(vm@.subrange(ms as int, me as int) == model_spec || (!dash_first && sep == -1
            && model_spec =~= vm@.subrange(0, 0)));
    }
    // Skip model-less records; bound everything else.
    if me == ms {
        proof {
            assert(model_spec.len() == 0);
        }
        return Ok(None);
    }
    if !(-2940 <= signed && signed <= 2940 && ve - vs <= 8 && me - ms <= 16) {
        return Err(TocError::DriveOffsetDecode);
    }
    let vendor = chars_to_string(&vm, vs, ve);
    let model = chars_to_string(&vm, ms, me);
    let rec = DriveOffset { vendor, model, offset: signed as i16 };
    proof {
        assert(rec@ =~= record_outcome(chunk).unwrap().unwrap());
    }
    Ok(Some(rec))
}

impl Toc {
    /// Parse an AccurateRip drive-offset manifest; see
    /// [`AccurateRip::parse_drive_offsets`].
    pub fn accuraterip_parse_drive_offsets(raw: &[u8]) -> (r: Result<Vec<DriveOffset>, TocError>)
        ensures
            match r {
                Ok(v) => drive_offsets_outcome(raw@) == Ok::<_, TocError>(offsets_views(v@)),
                Err(e) => drive_offsets_outcome(raw@) == Err::<Seq<DriveOffsetView>, TocError>(e),
            },
    {
        AccurateRip::parse_drive_offsets(raw)
    }
}

// ---------------------------------------------------------------------------
// The checksum manifest.
// ---------------------------------------------------------------------------
/// Saturating addition on confidence counts.
pub open spec fn sat_add8(a: u8, b: u8) -> u8 {
    if a + b > 255 {
        255
    } else {
        (a + b) as u8
    }
}

/// Record a checksum sighting: add the confidence (saturating) to an
/// existing entry for the value, or append a new entry.
pub open spec fn track_upd(m: Seq<(u32, u8)>, crc: u32, conf: u8) -> Seq<(u32, u8)>
    decreases m.len(),
{
    if m.len() == 0 {
        seq![(crc, conf)]
    } else if m[0].0 == crc {
        seq![(crc, sat_add8(m[0].1, conf))] + m.drop_first()
    } else {
        seq![m[0]] + track_upd(m.drop_first(), crc, conf)
    }
}

/// Entries before the matching one pass straight through.
proof fn lemma_track_upd_skip(m: Seq<(u32, u8)>, crc: u32, conf: u8, i: int)
    requires
        0 <= i <= m.len(),
        forall|j: int| 0 <= j < i ==> (#[trigger] m[j]).0 != crc,
    ensures
        track_upd(m, crc, conf) == m.subrange(0, i) + track_upd(
            m.subrange(i, m.len() as int),
            crc,
            conf,
        ),
    decreases i,
{
    if i == 0 {
        assert(m.subrange(0, m.len() as int) =~= m);
        assert(track_upd(m, crc, conf) =~= m.subrange(0, 0) + track_upd(m, crc, conf));
    } else {
        assert(m[0].0 != crc);
        lemma_track_upd_skip(m.drop_first(), crc, conf, i - 1);
        assert(m.drop_first().subrange(0, i - 1) =~= m.subrange(1, i));
        assert(m.drop_first().subrange(i - 1, m.drop_first().len() as int) =~= m.subrange(
            i,
            m.len() as int,
        ));
        assert(seq![m[0]] + (m.subrange(1, i) + track_upd(m.subrange(i, m.len() as int), crc, conf))
            =~= m.subrange(0, i) + track_upd(m.subrange(i, m.len() as int), crc, conf));
    }
}

/// The little-endian checksum for track `k` of a manifest chunk.
pub open spec fn chunk_crc(chunk: Seq<u8>, k: int) -> u32 {
    (chunk[13 + 9 * k + 1] + 256 * chunk[13 + 9 * k + 2] + 65536 * chunk[13 + 9 * k + 3] + 16777216
        * chunk[13 + 9 * k + 4]) as u32
}

/// The confidence byte for track `k` of a manifest chunk.
pub open spec fn chunk_conf(chunk: Seq<u8>, k: int) -> u8 {
    chunk[13 + 9 * k]
}

/// One chunk applied to the running table: every track with a non-zero
/// checksum records a sighting.
pub open spec fn apply_chunk(out: Seq<Seq<(u32, u8)>>, chunk: Seq<u8>) -> Seq<Seq<(u32, u8)>> {
    Seq::new(
        out.len(),
        |k: int|
            if chunk_crc(chunk, k) != 0 {
                track_upd(out[k], chunk_crc(chunk, k), chunk_conf(chunk, k))
            } else {
                out[k]
            },
    )
}

/// The manifest folded chunk by chunk: each must open with the caller's own
/// 13 identifier bytes.
pub open spec fn checksums_fold(me: Seq<u8>, bin: Seq<u8>, tracks: nat, j: nat) -> Result<
    Seq<Seq<(u32, u8)>>,
    TocError,
>
    decreases j,
{
    let cs = 13 + 9 * tracks;
    if j == 0 {
        Ok(Seq::new(tracks, |k: int| Seq::empty()))
    } else {
        match checksums_fold(me, bin, tracks, (j - 1) as nat) {
            Err(e) => Err(e),
            Ok(m) => {
                let chunk = bin.subrange(((j - 1) * cs) as int, (j * cs) as int);
                if chunk.subrange(0, 13) != me {
                    Err(TocError::Checksums)
                } else {
                    Ok(apply_chunk(m, chunk))
                }
            },
        }
    }
}

/// A fold that has failed stays failed.
proof fn lemma_checksums_fold_err(me: Seq<u8>, bin: Seq<u8>, tracks: nat, j: nat, j2: nat)
    requires
        j <= j2,
        checksums_fold(me, bin, tracks, j) is Err,
    ensures
        checksums_fold(me, bin, tracks, j2) == checksums_fold(me, bin, tracks, j),
    decreases j2 - j,
{
    if j < j2 {
        lemma_checksums_fold_err(me, bin, tracks, j, (j2 - 1) as nat);
    }
}

/// What a whole checksum manifest yields for an identifier: one table per
/// track (any trailing partial chunk ignored), or an error for a chunk that
/// does not open with the identifier or for an entirely empty result.
pub open spec fn checksums_outcome(me: AccurateRipView, bin: Seq<u8>) -> Result<
    Seq<Seq<(u32, u8)>>,
    TocError,
> {
    let tracks = me.tracks as nat;
    let cs = 13 + 9 * tracks;
    match checksums_fold(ar_bytes(me), bin, tracks, bin.len() / cs as int as nat) {
        Err(e) => Err(e),
        Ok(m) => if exists|k: int| 0 <= k < m.len() && (#[trigger] m[k]).len() > 0 {
            Ok(m)
        } else {
            Err(TocError::NoChecksums)
        },
    }
}

/// The views of the per-track tables.
pub open spec fn table_views(s: Seq<Vec<(u32, u8)>>) -> Seq<Seq<(u32, u8)>> {
    Seq::new(s.len(), |i: int| s[i]@)
}

/// Record a sighting in one track's table, as [`track_upd`] states.
fn track_upd_exec(row: &mut Vec<(u32, u8)>, crc: u32, conf: u8)
    ensures
        final(row)@ == track_upd(old(row)@, crc, conf),
{
    let ghost m = old(row)@;
    let len = row.len();
    let mut i: usize = 0;
    while i < len
        invariant
            i <= len,
            len == row@.len(),
            row@ == m,
            m == old(row)@,
            forall|j: int| 0 <= j < i ==> (#[trigger] m[j]).0 != crc,
        decreases len - i,
    {
        if row[i].0 == crc {
            let updated = row[i].1.saturating_add(conf);
            proof {
                lemma_track_upd_skip(m, crc, conf, i as int);
                assert(track_upd(m.subrange(i as int, m.len() as int), crc, conf) == seq![
                    (crc, sat_add8(m[i as int].1, conf)),
                ] + m.subrange(i as int, m.len() as int).drop_first());
            }
            row.set(i, (crc, updated));
            proof {
                assert(m.subrange(i as int, m.len() as int).drop_first() =~= m.subrange(
                    i + 1,
                    m.len() as int,
                ));
                assert(m.subrange(i as int, m.len() as int)[0] == m[i as int]);
                assert(updated == sat_add8(m[i as int].1, conf));
                assert(row@ =~= track_upd(m, crc, conf));
            }
            return ;
        }
        i = i + 1;
    }
    proof {
        lemma_track_upd_skip(m, crc, conf, len as int);
        assert(m.subrange(len as int, m.len() as int) =~= Seq::<(u32, u8)>::empty());
        assert(track_upd(Seq::<(u32, u8)>::empty(), crc, conf) == seq![(crc, conf)]);
    }
    row.push((crc, conf));
    proof {
        assert(row@ =~= m.subrange(0, len as int) + seq![(crc, conf)]);
        assert(m.subrange(0, len as int) =~= m);
    }
}

impl AccurateRip {
    /// Parse a binary checksum manifest: zero or more chunks, each this
    /// identifier's 13 bytes followed by one confidence byte and a four-byte
    /// little-endian checksum per track (a zero checksum means no data).
    ///
    /// The result holds, per track, each seen checksum with its summed
    /// confidence; a manifest with no usable checksum at all is refused.
    #[verifier::rlimit(100)]
    #[verifier::spinoff_prover]
    pub fn parse_checksums(&self, bin: &[u8]) -> (r: Result<Vec<Vec<(u32, u8)>>, TocError>)
        ensures
            match r {
                Ok(v) => checksums_outcome(self@, bin@) == Ok::<_, TocError>(table_views(v@)),
                Err(e) => checksums_outcome(self@, bin@) == Err::<Seq<Seq<(u32, u8)>>, TocError>(e),
            },
    {
        let me = self.to_bytes();
        let tracks = self.tracks as usize;
        let cs = 13 + 9 * tracks;
        let total = bin.len();
        let chunks = total / cs;
        let mut out: Vec<Vec<(u32, u8)>> = Vec::new();
        let mut k: usize = 0;
        while k < tracks
            invariant
                k <= tracks,
                out@.len() == k,
                forall|i: int| 0 <= i < k ==> (#[trigger] out@[i])@.len() == 0,
            decreases tracks - k,
        {
            out.push(Vec::new());
            k = k + 1;
        }
        proof {
            assert(table_views(out@) =~~= Seq::new(
                tracks as nat,
                |i: int| Seq::<(u32, u8)>::empty(),
            ));
        }
        let mut j: usize = 0;
        while j < chunks
            invariant
                j <= chunks,
                me@ == ar_bytes(self@),
                me@.len() == 13,
                tracks == self@.tracks,
                cs == 13 + 9 * tracks,
                total == bin@.len(),
                chunks == bin@.len() as int / cs as int,
                out@.len() == tracks,
                checksums_fold(me@, bin@, tracks as nat, j as nat) == Ok::<_, TocError>(
                    table_views(out@),
                ),
            decreases chunks - j,
        {
            proof {
                assert(j * cs + cs <= total) by (nonlinear_arith)
                    requires
                        j < chunks,
                        chunks == total / cs,
                        cs > 0,
                ;
                assert((j + 1) * cs == j * cs + cs) by (nonlinear_arith);
            }
            let base = j * cs;
            let ghost chunk = bin@.subrange(base as int, (base + cs) as int);
            // The chunk must open with this identifier's bytes.
            let mut p: usize = 0;
            while p < 13
                invariant
                    p <= 13,
                    base + cs <= total,
                    base == j * cs,
                    (j + 1) * cs == base + cs,
                    j < chunks,
                    cs == 13 + 9 * tracks,
                    tracks == self@.tracks,
                    me@ == ar_bytes(self@),
                    chunks == bin@.len() as int / cs as int,
                    total == bin@.len(),
                    me@.len() == 13,
                    chunk == bin@.subrange(base as int, (base + cs) as int),
                    checksums_fold(me@, bin@, tracks as nat, j as nat) == Ok::<_, TocError>(
                        table_views(out@),
                    ),
                    forall|q: int| 0 <= q < p ==> #[trigger] chunk[q] == me@[q],
                decreases 13 - p,
            {
                if bin[base + p] != me[p] {
                    proof {
                        assert(chunk[p as int] == bin@[base + p]);
                        assert(chunk.subrange(0, 13)[p as int] == chunk[p as int]);
                        assert(chunk.subrange(0, 13) != me@);
                        assert(checksums_fold(me@, bin@, tracks as nat, (j + 1) as nat) == Err::<
                            Seq<Seq<(u32, u8)>>,
                            TocError,
                        >(TocError::Checksums));
                        lemma_checksums_fold_err(
                            me@,
                            bin@,
                            tracks as nat,
                            (j + 1) as nat,
                            (bin@.len() as int / cs as int) as nat,
                        );
                    }
                    return Err(TocError::Checksums);
                }
                proof {
                    assert(chunk[p as int] == bin@[base + p]);
                }
                p = p + 1;
            }
            proof {
                assert(chunk.subrange(0, 13) =~= me@);
            }
            // Fold each track's checksum and confidence into the tables.
            let ghost before = table_views(out@);
            let mut t: usize = 0;
            while t < tracks
                invariant
                    t <= tracks,
                    base + cs <= total,
                    cs == 13 + 9 * tracks,
                    total == bin@.len(),
                    chunk == bin@.subrange(base as int, (base + cs) as int),
                    out@.len() == tracks,
                    forall|k2: int|
                        0 <= k2 < t ==> #[trigger] table_views(out@)[k2] == apply_chunk(
                            before,
                            chunk,
                        )[k2],
                    forall|k2: int|
                        t <= k2 < tracks ==> #[trigger] table_views(out@)[k2] == before[k2],
                    before.len() == tracks,
                decreases tracks - t,
            {
                let off = base + 13 + 9 * t;
                let conf = bin[off];
                let crc = bin[off + 1] as u32 + 256 * (bin[off + 2] as u32) + 65536 * (bin[off
                    + 3] as u32) + 16777216 * (bin[off + 4] as u32);
                proof {
                    assert(13 + 9 * t + 4 < cs);
                    assert(chunk[13 + 9 * (t as int)] == bin@[off as int]);
                    assert(chunk[13 + 9 * (t as int) + 1] == bin@[off + 1]);
                    assert(chunk[13 + 9 * (t as int) + 2] == bin@[off + 2]);
                    assert(chunk[13 + 9 * (t as int) + 3] == bin@[off + 3]);
                    assert(chunk[13 + 9 * (t as int) + 4] == bin@[off + 4]);
                    assert(crc == chunk_crc(chunk, t as int));
                    assert(conf == chunk_conf(chunk, t as int));
                }
                let ghost prev = out@;
                if crc != 0 {
                    let row = vstd::std_specs::vec::vec_index_mut(&mut out, t);
                    track_upd_exec(row, crc, conf);
                    proof {
                        assert(out@[t as int]@ == track_upd(prev[t as int]@, crc, conf));
                        assert(forall|k2: int|
                            0 <= k2 < tracks && k2 != t ==> #[trigger] out@[k2] == prev[k2]);
                    }
                }
                proof {
                    assert forall|k2: int| 0 <= k2 < t + 1 implies #[trigger] table_views(
                        out@,
                    )[k2] == apply_chunk(before, chunk)[k2] by {
                        if k2 < t {
                            assert(out@[k2] == prev[k2]);
                            assert(table_views(prev)[k2] == apply_chunk(before, chunk)[k2]);
                        } else {
                            assert(table_views(prev)[k2] == before[k2]);
                            if crc != 0 {
                                assert(out@[t as int]@ == track_upd(before[t as int], crc, conf));
                            } else {
                                assert(out@[k2] == prev[k2]);
                            }
                        }
                    }
                    assert forall|k2: int| t + 1 <= k2 < tracks implies #[trigger] table_views(
                        out@,
                    )[k2] == before[k2] by {
                        assert(out@[k2] == prev[k2]);
                        assert(table_views(prev)[k2] == before[k2]);
                    }
                }
                t = t + 1;
            }
            proof {
                assert(table_views(out@) =~= apply_chunk(before, chunk));
            }
            j = j + 1;
        }
        // At least one checksum must have turned up.
        let mut any: bool = false;
        let mut k2: usize = 0;
        while k2 < tracks
            invariant
                k2 <= tracks,
                out@.len() == tracks,
                any == exists|i: int| 0 <= i < k2 && (#[trigger] out@[i])@.len() > 0,
            decreases tracks - k2,
        {
            if out[k2].len() > 0 {
                any = true;
            }
            k2 = k2 + 1;
        }
        proof {
            assert(tracks as nat == self@.tracks as nat);
            assert(me@ == ar_bytes(self@));
            assert(j == chunks);
            assert(chunks as nat == bin@.len() / ((13 + 9 * (self@.tracks as nat)) as int as nat));
            assert(checksums_fold(ar_bytes(self@), bin@, self@.tracks as nat, chunks as nat)
                == Ok::<_, TocError>(table_views(out@)));
        }
        if any {
            proof {
                let w = choose|i: int| 0 <= i < out@.len() && (#[trigger] out@[i])@.len() > 0;
                assert((table_views(out@)[w]).len() > 0);
                let m = checksums_fold(
                    ar_bytes(self@),
                    bin@,
                    self@.tracks as nat,
                    bin@.len() / ((13 + 9 * (self@.tracks as nat)) as int as nat),
                ).unwrap();
                assert(m == table_views(out@));
                assert(0 <= w < m.len() && m[w].len() > 0);
                assert(exists|k: int| 0 <= k < m.len() && (#[trigger] m[k]).len() > 0);
                assert(checksums_outcome(self@, bin@) == Ok::<_, TocError>(table_views(out@)));
            }
            Ok(out)
        } else {
            proof {
                assert forall|i: int| 0 <= i < table_views(out@).len() implies (#[trigger]
                table_views(out@)[i]).len() == 0 by {
                    assert(!(out@[i]@.len() > 0));
                }
            }
            Err(TocError::NoChecksums)
        }
    }
}

impl Toc {
    /// Parse an AccurateRip checksum manifest for this disc; see
    /// [`AccurateRip::parse_checksums`].
    pub fn accuraterip_parse_checksums(&self, bin: &[u8]) -> (r: Result<
        Vec<Vec<(u32, u8)>>,
        TocError,
    >)
        requires
            self@.wf(),
        ensures
            ({
                let t = AccurateRipView {
                    tracks: self@.audio.len() as u8,
                    b: ar_b(self@),
                    c: ar_c(self@),
                    cddb: cddb_of(self@),
                };
                match r {
                    Ok(v) => checksums_outcome(t, bin@) == Ok::<_, TocError>(table_views(v@)),
                    Err(e) => checksums_outcome(t, bin@) == Err::<Seq<Seq<(u32, u8)>>, TocError>(
                        e,
                    ),
                }
            }),
    {
        let id = self.accuraterip_id();
        proof {
            assert(id@ =~= AccurateRipView {
                tracks: self@.audio.len() as u8,
                b: ar_b(self@),
                c: ar_c(self@),
                cddb: cddb_of(self@),
            });
        }
        id.parse_checksums(bin)
    }
}

} // verus!
