//! The CUETools-database identifier and lookup URL: a SHA-1 over the
//! leadin-relative track offsets, each hashed as eight uppercase hex
//! characters of text, padded out to 99 track slots.

use vstd::prelude::*;

use crate::Toc;
use crate::TocKind;
use crate::TocView;
use crate::lemma_increasing;
use crate::shab64::ShaB64;
use crate::shab64::sha1_digest;
use crate::shab64::sha1_of;
use crate::sub_sat;
use crate::text::decu;
use crate::text::hex_fixed_upper_bytes;
use crate::text::push_char;
use crate::text::push_decu;
use crate::text::push_hex8_upper_bytes;
use vstd::string::StringExecFns;
use crate::TocError;
use crate::text::all_dec;
use crate::text::dec_group_val;
use crate::text::find_char_from;
use crate::text::find_char_range;
use crate::text::find_sub_from;
use crate::text::find_sub_range;
use crate::text::hex_group_val;
use crate::text::is_hex_group;
use crate::text::split_on;
use crate::text::tokens_from;
use crate::text::trim_white;
use crate::text::trim_white_range;
use crate::text::ascii_ws;
use crate::text::is_ascii_ws;
use crate::text::lemma_hex_group_val_bound;
use crate::text::lemma_pow16_mono;
use crate::text::lemma_pow16_values;
use crate::text::lemma_split_nonempty;
use crate::text::group_views;
use crate::text::parse_dec;
use crate::text::parse_hex;
use crate::text::split_groups;
use crate::text::to_chars;
use crate::text::ws_from;

verus! {

/// Each value a block of eight uppercase hex characters, as ASCII bytes.
pub open spec fn hex8_blocks(vals: Seq<u32>) -> Seq<u8>
    decreases vals.len(),
{
    if vals.len() == 0 {
        Seq::empty()
    } else {
        hex8_blocks(vals.drop_last()) + hex_fixed_upper_bytes(vals.last() as nat, 8)
    }
}

/// `k` ASCII zeros.
pub open spec fn zero_bytes(k: nat) -> Seq<u8> {
    Seq::new(k, |i: int| 48u8)
}

/// The leadin-relative offsets the CUETools derivation hashes: every audio
/// sector after the first, then the audio leadout, each less the leadin (an
/// audio leadout that falls short of the leadin counts as zero).
pub open spec fn ctdb_offs(v: TocView) -> Seq<u32> {
    Seq::new(
        v.audio.len(),
        |i: int|
            if i + 1 < v.audio.len() {
                (v.audio[i + 1] - v.audio[0]) as u32
            } else {
                sub_sat(v.spec_audio_leadout(), v.audio[0])
            },
    )
}

/// The exact byte text the CUETools derivation hashes: the offsets, then
/// all-zero blocks up to 99 track slots.
pub open spec fn ctdb_hash_input(v: TocView) -> Seq<u8> {
    hex8_blocks(ctdb_offs(v)) + zero_bytes(((100 - v.audio.len()) * 8) as nat)
}

/// The lookup `toc=` parameter values, one colon-terminated decimal per
/// audio sector, each less the standard 150-sector leadin.
pub open spec fn url_groups(audio: Seq<u32>) -> Seq<char>
    decreases audio.len(),
{
    if audio.len() == 0 {
        Seq::empty()
    } else {
        url_groups(audio.drop_last()) + decu(sub_sat(audio.last(), 150) as nat) + seq![':']
    }
}

/// The full checksum lookup URL: the fixed query prefix, a `-`-marked data
/// value before the audio values (leading data session) or after them
/// (trailing data session), and the leadout last.
pub open spec fn ctdb_url(v: TocView) -> Seq<char> {
    "http://db.cuetools.net/lookup2.php?version=3&ctdb=1&fuzzy=1&toc="@ + (if v.kind
        == TocKind::DataFirst {
        seq!['-'] + decu(sub_sat(v.data, 150) as nat) + seq![':']
    } else {
        Seq::empty()
    }) + url_groups(v.audio) + (if v.kind == TocKind::CDExtra {
        seq!['-'] + decu(sub_sat(v.data, 150) as nat) + seq![':']
    } else {
        Seq::empty()
    }) + decu(sub_sat(v.leadout, 150) as nat)
}

impl Toc {
    /// The CUETools-database identifier: the SHA-1 of
    /// [`ctdb_hash_input`], wrapped for base64 rendering.
    pub fn ctdb_id(&self) -> (r: ShaB64)
        requires
            self@.wf(),
        ensures
            r@ == sha1_of(ctdb_hash_input(self@)),
            r.wf(),
    {
        let ghost offs = ctdb_offs(self@);
        let sectors = self.audio_sectors();
        let len = sectors.len();
        let leadin = sectors[0];
        let mut buf: Vec<u8> = Vec::new();
        let mut i: usize = 1;
        proof {
            assert(buf@ =~= hex8_blocks(offs.subrange(0, 0)));
        }
        while i < len
            invariant
                1 <= i <= len || (len == 0 && i == 1),
                len == self@.audio.len(),
                sectors@ == self@.audio,
                self@.wf(),
                leadin == self@.audio[0],
                offs == ctdb_offs(self@),
                buf@ == hex8_blocks(offs.subrange(0, i - 1)),
            decreases len - i,
        {
            proof {
                lemma_increasing(self@.audio, 0, i as int);
                assert(offs.subrange(0, i as int).drop_last() =~= offs.subrange(0, i - 1));
                assert(offs.subrange(0, i as int).last() == offs[i - 1]);
            }
            push_hex8_upper_bytes(&mut buf, sectors[i] - leadin);
            i = i + 1;
        }
        proof {
            assert(offs.subrange(0, len as int).drop_last() =~= offs.subrange(0, len - 1));
            assert(offs.subrange(0, len as int).last() == offs[len - 1]);
        }
        push_hex8_upper_bytes(&mut buf, self.audio_leadout().saturating_sub(leadin));
        proof {
            assert(offs.subrange(0, len as int) =~= offs);
            assert(buf@ == hex8_blocks(offs));
        }
        let pad = (100 - len) * 8;
        let mut j: usize = 0;
        let ghost blocks = buf@;
        while j < pad
            invariant
                j <= pad,
                buf@ == blocks + zero_bytes(j as nat),
            decreases pad - j,
        {
            buf.push(48);
            proof {
                assert(blocks + zero_bytes((j + 1) as nat) =~= (blocks + zero_bytes(
                    j as nat,
                )).push(48u8));
            }
            j = j + 1;
        }
        proof {
            assert(buf@ =~= ctdb_hash_input(self@));
        }
        let digest = sha1_digest(&buf);
        ShaB64::from_digest(digest)
    }

    /// The checksum lookup URL for this table of contents, exactly
    /// [`ctdb_url`].
    pub fn ctdb_checksum_url(&self) -> (r: String)
        requires
            self@.wf(),
        ensures
            r@ == ctdb_url(self@),
    {
        let mut out = String::from_str(
            "http://db.cuetools.net/lookup2.php?version=3&ctdb=1&fuzzy=1&toc=",
        );
        if matches!(self.kind(), TocKind::DataFirst) {
            push_char(&mut out, '-');
            let d = match self.data_sector() {
                Some(d) => d,
                None => 0,
            };
            push_decu(&mut out, d.saturating_sub(150) as u64);
            push_char(&mut out, ':');
        }
        let ghost mid = out@;
        let sectors = self.audio_sectors();
        let len = sectors.len();
        let mut i: usize = 0;
        proof {
            assert(mid + url_groups(self@.audio.subrange(0, 0)) =~= mid);
        }
        while i < len
            invariant
                i <= len,
                len == self@.audio.len(),
                sectors@ == self@.audio,
                out@ == mid + url_groups(self@.audio.subrange(0, i as int)),
            decreases len - i,
        {
            push_decu(&mut out, sectors[i].saturating_sub(150) as u64);
            push_char(&mut out, ':');
            proof {
                assert(self@.audio.subrange(0, i + 1).drop_last() =~= self@.audio.subrange(
                    0,
                    i as int,
                ));
                assert(self@.audio.subrange(0, i + 1).last() == self@.audio[i as int]);
                assert(out@ =~= mid + url_groups(self@.audio.subrange(0, i + 1)));
            }
            i = i + 1;
        }
        proof {
            assert(self@.audio.subrange(0, len as int) =~= self@.audio);
        }
        if matches!(self.kind(), TocKind::CDExtra) {
            push_char(&mut out, '-');
            let d = match self.data_sector() {
                Some(d) => d,
                None => 0,
            };
            push_decu(&mut out, d.saturating_sub(150) as u64);
            push_char(&mut out, ':');
        }
        push_decu(&mut out, self.leadout().saturating_sub(150) as u64);
        proof {
            assert(out@ =~= ctdb_url(self@));
        }
        out
    }
}

// ---------------------------------------------------------------------------
// The checksum XML.
// ---------------------------------------------------------------------------
/// A line with its `\r\n` carriage return removed.
pub open spec fn strip_cr(l: Seq<char>) -> Seq<char> {
    if l.len() > 0 && l.last() == '\r' {
        l.drop_last()
    } else {
        l
    }
}

/// The lines of a text: split at every newline, each surviving line's
/// trailing carriage return removed, a trailing line ending optional.
pub open spec fn lines_of(s: Seq<char>) -> Seq<Seq<char>> {
    if s.len() == 0 {
        Seq::empty()
    } else {
        let parts = split_on(s, '\n');
        if parts.last().len() == 0 {
            parts.drop_last().map_values(|l: Seq<char>| strip_cr(l))
        } else {
            parts.drop_last().map_values(|l: Seq<char>| strip_cr(l)).push(parts.last())
        }
    }
}

/// The opening text of a checksum entry line.
pub open spec fn entry_pat() -> Seq<char> {
    seq!['<', 'e', 'n', 't', 'r', 'y', ' ']
}

/// The confidence attribute, up to its opening quote.
pub open spec fn conf_pat() -> Seq<char> {
    seq![' ', 'c', 'o', 'n', 'f', 'i', 'd', 'e', 'n', 'c', 'e', '=', '"']
}

/// The per-track checksum attribute, up to its opening quote.
pub open spec fn crcs_pat() -> Seq<char> {
    seq![' ', 't', 'r', 'a', 'c', 'k', 'c', 'r', 'c', 's', '=', '"']
}

/// The trimmed text of an attribute value: everything between the first
/// occurrence of `pat` and the next quote, when that is non-empty.
pub open spec fn attr_val(t: Seq<char>, pat: Seq<char>) -> Option<Seq<char>> {
    let st = find_sub_from(t, pat, 0);
    if st == -1 {
        None
    } else {
        let rest = t.subrange(st + pat.len(), t.len() as int);
        let e = find_char_from(rest, '"', 0);
        if e == -1 {
            None
        } else if e > 0 {
            Some(trim_white(rest.subrange(0, e)))
        } else {
            None
        }
    }
}

/// The confidence and checksum texts of an entry line, when the line opens
/// an entry and carries both attributes with non-empty values.
pub open spec fn entry_attrs(t: Seq<char>) -> Option<(Seq<char>, Seq<char>)> {
    if t.len() >= 7 && t.subrange(0, 7) == entry_pat() {
        match attr_val(t, conf_pat()) {
            None => None,
            Some(c) => match attr_val(t, crcs_pat()) {
                None => None,
                Some(r) => Some((c, r)),
            },
        }
    } else {
        None
    }
}

/// The digits of a confidence value, an optional leading plus removed.
pub open spec fn u16_digits(s: Seq<char>) -> Seq<char> {
    if s.len() >= 1 && s[0] == '+' {
        s.drop_first()
    } else {
        s
    }
}

/// Whether a confidence value parses: one or more digits, below 2^16.
pub open spec fn valid_u16(s: Seq<char>) -> bool {
    u16_digits(s).len() >= 1 && all_dec(u16_digits(s)) && dec_group_val(u16_digits(s)) <= 65535
}

/// Saturating addition on confidence counts.
pub open spec fn sat_add16(a: u16, b: u16) -> u16 {
    if a + b > 65535 {
        65535
    } else {
        (a + b) as u16
    }
}

/// Record a checksum sighting: add the confidence (saturating) to an
/// existing entry for the value, or append a new entry.
pub open spec fn track_upd16(m: Seq<(u32, u16)>, crc: u32, conf: u16) -> Seq<(u32, u16)>
    decreases m.len(),
{
    if m.len() == 0 {
        seq![(crc, conf)]
    } else if m[0].0 == crc {
        seq![(crc, sat_add16(m[0].1, conf))] + m.drop_first()
    } else {
        seq![m[0]] + track_upd16(m.drop_first(), crc, conf)
    }
}

/// Entries before the matching one pass straight through.
proof fn lemma_track_upd16_skip(m: Seq<(u32, u16)>, crc: u32, conf: u16, i: int)
    requires
        0 <= i <= m.len(),
        forall|j: int| 0 <= j < i ==> (#[trigger] m[j]).0 != crc,
    ensures
        track_upd16(m, crc, conf) == m.subrange(0, i) + track_upd16(
            m.subrange(i, m.len() as int),
            crc,
            conf,
        ),
    decreases i,
{
    if i == 0 {
        assert(m.subrange(0, m.len() as int) =~= m);
        assert(track_upd16(m, crc, conf) =~= m.subrange(0, 0) + track_upd16(m, crc, conf));
    } else {
        assert(m[0].0 != crc);
        lemma_track_upd16_skip(m.drop_first(), crc, conf, i - 1);
        assert(m.drop_first().subrange(0, i - 1) =~= m.subrange(1, i));
        assert(m.drop_first().subrange(i - 1, m.drop_first().len() as int) =~= m.subrange(
            i,
            m.len() as int,
        ));
        assert(seq![m[0]] + (m.subrange(1, i) + track_upd16(
            m.subrange(i, m.len() as int),
            crc,
            conf,
        )) =~= m.subrange(0, i) + track_upd16(m.subrange(i, m.len() as int), crc, conf));
    }
}

/// One entry applied to the running tables: each track whose checksum text
/// is non-zero records a sighting.
pub open spec fn apply_crcs(m: Seq<Seq<(u32, u16)>>, toks: Seq<Seq<char>>, conf: u16) -> Seq<
    Seq<(u32, u16)>,
> {
    Seq::new(
        m.len(),
        |k: int|
            if hex_group_val(toks[k]) != 0 {
                track_upd16(m[k], hex_group_val(toks[k]) as u32, conf)
            } else {
                m[k]
            },
    )
}

/// What one line does to the running tables: non-entry lines change nothing;
/// an entry line with a malformed confidence, the wrong number of checksum
/// tokens, or a malformed token fails; otherwise every non-zero checksum
/// records a sighting at its track.
pub open spec fn line_step(m: Seq<Seq<(u32, u16)>>, line: Seq<char>, tracks: nat) -> Result<
    Seq<Seq<(u32, u16)>>,
    TocError,
> {
    match entry_attrs(trim_white(line)) {
        None => Ok(m),
        Some(attrs) => if !valid_u16(attrs.0) {
            Err(TocError::Checksums)
        } else {
            let toks = tokens_from(attrs.1, 0);
            if toks.len() != tracks || (exists|i: int|
                0 <= i < toks.len() && !is_hex_group(#[trigger] toks[i], 8)) {
                Err(TocError::Checksums)
            } else {
                Ok(apply_crcs(m, toks, dec_group_val(u16_digits(attrs.0)) as u16))
            }
        },
    }
}

/// The XML folded line by line.
pub open spec fn xml_fold(ls: Seq<Seq<char>>, tracks: nat, j: nat) -> Result<
    Seq<Seq<(u32, u16)>>,
    TocError,
>
    decreases j,
{
    if j == 0 {
        Ok(Seq::new(tracks, |k: int| Seq::empty()))
    } else {
        match xml_fold(ls, tracks, (j - 1) as nat) {
            Err(e) => Err(e),
            Ok(m) => line_step(m, ls[j - 1], tracks),
        }
    }
}

/// A fold that has failed stays failed.
proof fn lemma_xml_fold_err(ls: Seq<Seq<char>>, tracks: nat, j: nat, j2: nat)
    requires
        j <= j2,
        xml_fold(ls, tracks, j) is Err,
    ensures
        xml_fold(ls, tracks, j2) == xml_fold(ls, tracks, j),
    decreases j2 - j,
{
    if j < j2 {
        lemma_xml_fold_err(ls, tracks, j, (j2 - 1) as nat);
    }
}

/// What a whole checksum XML yields for a disc of `tracks` audio tracks, or
/// an error for a bad entry or an entirely empty result.
pub open spec fn ctdb_checksums_outcome(xml: Seq<char>, tracks: nat) -> Result<
    Seq<Seq<(u32, u16)>>,
    TocError,
> {
    match xml_fold(lines_of(xml), tracks, lines_of(xml).len()) {
        Err(e) => Err(e),
        Ok(m) => if exists|k: int| 0 <= k < m.len() && (#[trigger] m[k]).len() > 0 {
            Ok(m)
        } else {
            Err(TocError::NoChecksums)
        },
    }
}

/// The views of the per-track tables.
pub open spec fn table_views16(s: Seq<Vec<(u32, u16)>>) -> Seq<Seq<(u32, u16)>> {
    Seq::new(s.len(), |i: int| s[i]@)
}

/// Record a sighting in one track's table, as [`track_upd16`] states.
fn track_upd16_exec(row: &mut Vec<(u32, u16)>, crc: u32, conf: u16)
    ensures
        final(row)@ == track_upd16(old(row)@, crc, conf),
{
    let ghost m = old(row)@;
    let len = row.len();
    let mut i: usize = 0;
    while i < len
        invariant
            i <= len,
            len == row@.len(),
            row@ == m,
            m == old(row)@,
            forall|j: int| 0 <= j < i ==> (#[trigger] m[j]).0 != crc,
        decreases len - i,
    {
        if row[i].0 == crc {
            let updated = row[i].1.saturating_add(conf);
            proof {
                lemma_track_upd16_skip(m, crc, conf, i as int);
                assert(track_upd16(m.subrange(i as int, m.len() as int), crc, conf) == seq![
                    (crc, sat_add16(m[i as int].1, conf)),
                ] + m.subrange(i as int, m.len() as int).drop_first());
                assert(m.subrange(i as int, m.len() as int)[0] == m[i as int]);
            }
            row.set(i, (crc, updated));
            proof {
                assert(m.subrange(i as int, m.len() as int).drop_first() =~= m.subrange(
                    i + 1,
                    m.len() as int,
                ));
                assert(row@ =~= track_upd16(m, crc, conf));
            }
            return ;
        }
        i = i + 1;
    }
    proof {
        lemma_track_upd16_skip(m, crc, conf, len as int);
        assert(m.subrange(len as int, m.len() as int) =~= Seq::<(u32, u16)>::empty());
        assert(track_upd16(Seq::<(u32, u16)>::empty(), crc, conf) == seq![(crc, conf)]);
    }
    row.push((crc, conf));
    proof {
        assert(row@ =~= m.subrange(0, len as int) + seq![(crc, conf)]);
        assert(m.subrange(0, len as int) =~= m);
    }
}

/// Build the confidence attribute pattern.
fn make_conf_pat() -> (r: Vec<char>)
    ensures
        r@ == conf_pat(),
{
    let mut v: Vec<char> = Vec::new();
    v.push(' ');
    v.push('c');
    v.push('o');
    v.push('n');
    v.push('f');
    v.push('i');
    v.push('d');
    v.push('e');
    v.push('n');
    v.push('c');
    v.push('e');
    v.push('=');
    v.push('"');
    proof {
        assert(v@ =~= conf_pat());
    }
    v
}

/// Build the checksum attribute pattern.
fn make_crcs_pat() -> (r: Vec<char>)
    ensures
        r@ == crcs_pat(),
{
    let mut v: Vec<char> = Vec::new();
    v.push(' ');
    v.push('t');
    v.push('r');
    v.push('a');
    v.push('c');
    v.push('k');
    v.push('c');
    v.push('r');
    v.push('c');
    v.push('s');
    v.push('=');
    v.push('"');
    proof {
        assert(v@ =~= crcs_pat());
    }
    v
}

/// Find an attribute's trimmed value inside `v[from..to]`, exactly as
/// [`attr_val`] states it over that text.
fn parse_attr(v: &Vec<char>, from: usize, to: usize, pat: &Vec<char>) -> (r: Option<
    (usize, usize),
>)
    requires
        from <= to <= v@.len(),
        pat@.len() >= 1,
    ensures
        ({
            let t = v@.subrange(from as int, to as int);
            match r {
                Some(range) => from <= range.0 <= range.1 <= to && attr_val(t, pat@)
                    == Some(v@.subrange(range.0 as int, range.1 as int)),
                None => attr_val(t, pat@) is None,
            }
        }),
{
    let ghost t = v@.subrange(from as int, to as int);
    let st = match find_sub_range(v, from, to, pat) {
        Some(k) => k,
        None => {
            return None;
        },
    };
    let vs = from + st + pat.len();
    proof {
        assert(t.subrange(st + pat@.len(), t.len() as int) =~= v@.subrange(vs as int, to as int));
    }
    let e = match find_char_range(v, vs, to, '"') {
        Some(k) => k,
        None => {
            return None;
        },
    };
    if e == 0 {
        return None;
    }
    proof {
        assert(t.subrange(st + pat@.len(), t.len() as int).subrange(0, e as int) =~= v@.subrange(
            vs as int,
            vs + e,
        ));
    }
    let (ts, te) = trim_white_range(v, vs, vs + e);
    Some((ts, te))
}

/// Find the confidence and checksum values of an entry line, exactly as
/// [`entry_attrs`] states them over `v[from..to]`.
fn parse_entry(v: &Vec<char>, from: usize, to: usize) -> (r: Option<
    ((usize, usize), (usize, usize)),
>)
    requires
        from <= to <= v@.len(),
    ensures
        ({
            let t = v@.subrange(from as int, to as int);
            match r {
                Some(ranges) => {
                    &&& from <= ranges.0.0 <= ranges.0.1 <= to
                    &&& from <= ranges.1.0 <= ranges.1.1 <= to
                    &&& entry_attrs(t) == Some(
                        (
                            v@.subrange(ranges.0.0 as int, ranges.0.1 as int),
                            v@.subrange(ranges.1.0 as int, ranges.1.1 as int),
                        ),
                    )
                },
                None => entry_attrs(t) is None,
            }
        }),
{
    let ghost t = v@.subrange(from as int, to as int);
    if to - from < 7 {
        return None;
    }
    let is_entry = v[from] == '<' && v[from + 1] == 'e' && v[from + 2] == 'n' && v[from + 3] == 't'
        && v[from + 4] == 'r' && v[from + 5] == 'y' && v[from + 6] == ' ';
    proof {
        assert(t[0] == v@[from as int]);
        assert(t[1] == v@[from + 1]);
        assert(t[2] == v@[from + 2]);
        assert(t[3] == v@[from + 3]);
        assert(t[4] == v@[from + 4]);
        assert(t[5] == v@[from + 5]);
        assert(t[6] == v@[from + 6]);
        if is_entry {
            assert(t.subrange(0, 7) =~= entry_pat());
        } else {
            assert(t.subrange(0, 7) != entry_pat()) by {
                if t.subrange(0, 7) == entry_pat() {
                    assert(t.subrange(0, 7)[0] == t[0]);
                    assert(t.subrange(0, 7)[1] == t[1]);
                    assert(t.subrange(0, 7)[2] == t[2]);
                    assert(t.subrange(0, 7)[3] == t[3]);
                    assert(t.subrange(0, 7)[4] == t[4]);
                    assert(t.subrange(0, 7)[5] == t[5]);
                    assert(t.subrange(0, 7)[6] == t[6]);
                }
            }
        }
    }
    if !is_entry {
        return None;
    }
    let conf_pat_v = make_conf_pat();
    let crcs_pat_v = make_crcs_pat();
    let c = match parse_attr(v, from, to, &conf_pat_v) {
        Some(range) => range,
        None => {
            return None;
        },
    };
    let r = match parse_attr(v, from, to, &crcs_pat_v) {
        Some(range) => range,
        None => {
            return None;
        },
    };
    Some((c, r))
}

impl Toc {
    /// Parse a checksum XML by naive line scan: each line that opens with
    /// `<entry ` and carries non-empty confidence and per-track checksum
    /// attributes records its checksums (a zero checksum means no data,
    /// repeated checksums sum their confidences saturating); other lines are
    /// ignored. A malformed entry, a track-count mismatch, or an entirely
    /// empty result is an error.
    #[verifier::rlimit(100)]
    #[verifier::spinoff_prover]
    pub fn ctdb_parse_checksums(&self, xml: &str) -> (r: Result<Vec<Vec<(u32, u16)>>, TocError>)
        requires
            self@.wf(),
        ensures
            match r {
                Ok(v) => ctdb_checksums_outcome(xml@, self@.audio.len() as nat) == Ok::<
                    _,
                    TocError,
                >(table_views16(v@)),
                Err(e) => ctdb_checksums_outcome(xml@, self@.audio.len() as nat) == Err::<
                    Seq<Seq<(u32, u16)>>,
                    TocError,
                >(e),
            },
    {
        let tracks = self.audio_len();
        let v = to_chars(xml);
        let ghost ls = lines_of(xml@);
        let mut out: Vec<Vec<(u32, u16)>> = Vec::new();
        let mut k: usize = 0;
        while k < tracks
            invariant
                k <= tracks,
                out@.len() == k,
                forall|i: int| 0 <= i < k ==> (#[trigger] out@[i])@.len() == 0,
            decreases tracks - k,
        {
            out.push(Vec::new());
            k = k + 1;
        }
        proof {
            assert(table_views16(out@) =~~= Seq::new(
                tracks as nat,
                |i: int| Seq::<(u32, u16)>::empty(),
            ));
        }
        let groups = split_groups(&v, 0, v.len(), '\n');
        let n_all = groups.len();
        let ghost parts = split_on(v@, '\n');
        proof {
            lemma_split_nonempty(v@, '\n');
            assert(v@.subrange(0, v@.len() as int) =~= v@);
            assert(group_views(groups@) == parts);
            assert(group_views(groups@).len() == groups@.len());
            assert(n_all >= 1);
        }
        let n_lines: usize = if v.len() == 0 {
            0
        } else if groups[n_all - 1].len() == 0 {
            n_all - 1
        } else {
            n_all
        };
        proof {
            if v@.len() == 0 {
                assert(ls =~~= Seq::<Seq<char>>::empty());
            } else {
                assert(group_views(groups@)[n_all - 1] == groups@[n_all - 1]@);
                if parts.last().len() == 0 {
                    assert(ls == parts.drop_last().map_values(|l: Seq<char>| strip_cr(l)));
                } else {
                    assert(ls == parts.drop_last().map_values(|l: Seq<char>| strip_cr(l)).push(
                        parts.last(),
                    ));
                }
            }
            assert(ls.len() == n_lines);
            assert forall|x: int| 0 <= x < n_all - 1 implies #[trigger] ls[x] == strip_cr(
                parts[x],
            ) by {
                assert(parts.drop_last()[x] == parts[x]);
            }
        }
        let mut li: usize = 0;
        while li < n_lines
            invariant
                li <= n_lines,
                v@ == xml@,
                ls == lines_of(xml@),
                parts == split_on(v@, '\n'),
                group_views(groups@) == parts,
                n_all == groups@.len() >= 1,
                n_lines == ls.len(),
                n_lines == n_all || n_lines + 1 == n_all,
                tracks == self@.audio.len(),
                out@.len() == tracks,
                forall|x: int| 0 <= x < n_all - 1 ==> #[trigger] ls[x] == strip_cr(parts[x]),
                n_lines == n_all ==> ls[n_all - 1] == parts[n_all - 1],
                xml_fold(ls, tracks as nat, li as nat) == Ok::<_, TocError>(table_views16(out@)),
            decreases n_lines - li,
        {
            let lv = &groups[li];
            let lv_len = lv.len();
            let strip = li + 1 < n_all && lv_len > 0 && lv[lv_len - 1] == '\r';
            let upto = if strip {
                lv_len - 1
            } else {
                lv_len
            };
            let ghost line = ls[li as int];
            proof {
                assert(group_views(groups@)[li as int] == lv@);
                if li + 1 < n_all {
                    assert(ls[li as int] == strip_cr(lv@));
                    assert(strip_cr(lv@) =~= lv@.subrange(0, upto as int));
                } else {
                    assert(li == n_all - 1 && n_lines == n_all);
                    assert(ls[li as int] == lv@);
                    assert(lv@ =~= lv@.subrange(0, upto as int));
                }
                assert(line == lv@.subrange(0, upto as int));
            }
            let (ts, te) = trim_white_range(lv, 0, upto);
            proof {
                assert(lv@.subrange(ts as int, te as int) == trim_white(line));
            }
            match parse_entry(lv, ts, te) {
                None => {
                    proof {
                        assert(line_step(table_views16(out@), line, tracks as nat)
                            == Ok::<_, TocError>(table_views16(out@)));
                    }
                },
                Some(((cs, ce), (rs_s, rs_e))) => {
                    let ghost cstr = lv@.subrange(cs as int, ce as int);
                    let ghost rstr = lv@.subrange(rs_s as int, rs_e as int);
                    proof {
                        assert(entry_attrs(trim_white(line)) == Some((cstr, rstr)));
                    }
                    // The confidence: optional plus sign, then digits.
                    let ds = if ce > cs && lv[cs] == '+' {
                        cs + 1
                    } else {
                        cs
                    };
                    proof {
                        if ce > cs && lv@[cs as int] == '+' {
                            assert(u16_digits(cstr) =~= lv@.subrange(ds as int, ce as int));
                        } else {
                            assert(u16_digits(cstr) =~= lv@.subrange(ds as int, ce as int));
                        }
                    }
                    let conf: u16 = match parse_dec(lv, ds, ce, 65535) {
                        Some(n) => n as u16,
                        None => {
                            proof {
                                assert(!valid_u16(cstr));
                                assert(xml_fold(ls, tracks as nat, (li + 1) as nat) == Err::<
                                    Seq<Seq<(u32, u16)>>,
                                    TocError,
                                >(TocError::Checksums));
                                lemma_xml_fold_err(
                                    ls,
                                    tracks as nat,
                                    (li + 1) as nat,
                                    ls.len() as nat,
                                );
                            }
                            return Err(TocError::Checksums);
                        },
                    };
                    proof {
                        assert(valid_u16(cstr));
                        assert(conf == dec_group_val(u16_digits(cstr)));
                    }
                    // The checksums: one whitespace-separated hex token per
                    // track, in order.
                    let ghost toks = tokens_from(rstr, 0);
                    let ghost before = table_views16(out@);
                    let mut p = rs_s;
                    let mut id: usize = 0;
                    proof {
                        assert(tokens_from(rstr, 0) == toks.skip(0));
                        assert(toks.skip(0) =~~= toks);
                    }
                    while p < rs_e
                        invariant
                            rs_s <= p <= rs_e <= lv@.len(),
                            rstr == lv@.subrange(rs_s as int, rs_e as int),
                            toks == tokens_from(rstr, 0),
                            tokens_from(rstr, p - rs_s) == toks.skip(id as int),
                            id <= toks.len(),
                            id <= tracks,
                            tracks == self@.audio.len(),
                            out@.len() == tracks,
                            before.len() == tracks,
                            conf == dec_group_val(u16_digits(cstr)),
                            valid_u16(cstr),
                            entry_attrs(trim_white(line)) == Some((cstr, rstr)),
                            line == ls[li as int],
                            li < n_lines == ls.len(),
                            ls == lines_of(xml@),
                            v@ == xml@,
                            xml_fold(ls, tracks as nat, li as nat) == Ok::<_, TocError>(before),
                            forall|x: int| 0 <= x < id ==> is_hex_group(#[trigger] toks[x], 8),
                            forall|k2: int|
                                0 <= k2 < id ==> #[trigger] table_views16(out@)[k2] == (
                                if hex_group_val(toks[k2]) != 0 {
                                    track_upd16(before[k2], hex_group_val(toks[k2]) as u32, conf)
                                } else {
                                    before[k2]
                                }),
                            forall|k2: int|
                                id <= k2 < tracks ==> #[trigger] table_views16(out@)[k2]
                                    == before[k2],
                        decreases rs_e - p,
                    {
                        let c = lv[p];
                        proof {
                            assert(rstr[p - rs_s] == c);
                        }
                        if ascii_ws(c) {
                            proof {
                                assert(tokens_from(rstr, p + 1 - rs_s) == tokens_from(
                                    rstr,
                                    p - rs_s,
                                ));
                            }
                            p = p + 1;
                        } else {
                            let tok_start = p;
                            let mut e = p + 1;
                            while e < rs_e && ws_free_at(lv, e)
                                invariant
                                    tok_start + 1 <= e <= rs_e <= lv@.len(),
                                    rs_s <= tok_start,
                                    rstr == lv@.subrange(rs_s as int, rs_e as int),
                                    ws_from(rstr, tok_start + 1 - rs_s) == ws_from(
                                        rstr,
                                        e - rs_s,
                                    ),
                                decreases rs_e - e,
                            {
                                proof {
                                    assert(rstr[e - rs_s] == lv@[e as int]);
                                }
                                e = e + 1;
                            }
                            proof {
                                if e < rs_e {
                                    assert(rstr[e - rs_s] == lv@[e as int]);
                                    assert(is_ascii_ws(rstr[e - rs_s]));
                                    assert(ws_from(rstr, e - rs_s) == e - rs_s);
                                } else {
                                    assert(ws_from(rstr, e - rs_s) == rstr.len() as int);
                                }
                                let j0 = tok_start - rs_s;
                                assert(ws_from(rstr, j0 + 1) == e - rs_s);
                                assert(!is_ascii_ws(rstr[j0]));
                                assert(tokens_from(rstr, j0) == seq![
                                    rstr.subrange(j0, e - rs_s),
                                ] + tokens_from(rstr, e - rs_s));
                                assert(toks.skip(id as int)[0] == rstr.subrange(j0, e - rs_s));
                                assert(toks[id as int] == rstr.subrange(j0, e - rs_s));
                                assert(toks.skip(id as int).drop_first() =~~= toks.skip(id + 1));
                                assert(tokens_from(rstr, e - rs_s) == toks.skip(id + 1));
                                assert(toks.len() > id);
                            }
                            if id >= tracks {
                                proof {
                                    assert(toks.len() != tracks as nat);
                                    assert(line_step(before, line, tracks as nat) == Err::<
                                        Seq<Seq<(u32, u16)>>,
                                        TocError,
                                    >(TocError::Checksums));
                                    assert(xml_fold(ls, tracks as nat, (li + 1) as nat) == Err::<
                                        Seq<Seq<(u32, u16)>>,
                                        TocError,
                                    >(TocError::Checksums));
                                    lemma_xml_fold_err(
                                        ls,
                                        tracks as nat,
                                        (li + 1) as nat,
                                        ls.len() as nat,
                                    );
                                }
                                return Err(TocError::Checksums);
                            }
                            let crc64 = match parse_hex(lv, tok_start, e, 8) {
                                Some(n) => n,
                                None => {
                                    proof {
                                        assert(lv@.subrange(tok_start as int, e as int)
                                            =~= toks[id as int]);
                                        assert(!is_hex_group(toks[id as int], 8));
                                        assert(xml_fold(ls, tracks as nat, (li + 1) as nat)
                                            == Err::<Seq<Seq<(u32, u16)>>, TocError>(
                                            TocError::Checksums,
                                        ));
                                        lemma_xml_fold_err(
                                            ls,
                                            tracks as nat,
                                            (li + 1) as nat,
                                            ls.len() as nat,
                                        );
                                    }
                                    return Err(TocError::Checksums);
                                },
                            };
                            proof {
                                assert(lv@.subrange(tok_start as int, e as int)
                                    =~= toks[id as int]);
                                lemma_hex_group_val_bound(toks[id as int]);
                                lemma_pow16_values();
                                lemma_pow16_mono(toks[id as int].len(), 8);
                            }
                            let crc = crc64 as u32;
                            let ghost prev = out@;
                            if crc != 0 {
                                let row = vstd::std_specs::vec::vec_index_mut(&mut out, id);
                                track_upd16_exec(row, crc, conf);
                                proof {
                                    assert(out@[id as int]@ == track_upd16(
                                        prev[id as int]@,
                                        crc,
                                        conf,
                                    ));
                                    assert(forall|k2: int|
                                        0 <= k2 < tracks && k2 != id ==> #[trigger] out@[k2]
                                            == prev[k2]);
                                }
                            }
                            proof {
                                assert forall|k2: int| 0 <= k2 < id + 1 implies #[trigger]
                                table_views16(out@)[k2] == (if hex_group_val(toks[k2]) != 0 {
                                    track_upd16(before[k2], hex_group_val(toks[k2]) as u32, conf)
                                } else {
                                    before[k2]
                                }) by {
                                    if k2 < id {
                                        assert(out@[k2] == prev[k2]);
                                        assert(table_views16(prev)[k2] == (if hex_group_val(
                                            toks[k2],
                                        ) != 0 {
                                            track_upd16(
                                                before[k2],
                                                hex_group_val(toks[k2]) as u32,
                                                conf,
                                            )
                                        } else {
                                            before[k2]
                                        }));
                                    } else {
                                        assert(table_views16(prev)[k2] == before[k2]);
                                        if crc != 0 {
                                            assert(out@[id as int]@ == track_upd16(
                                                before[id as int],
                                                crc,
                                                conf,
                                            ));
                                        } else {
                                            assert(out@[k2] == prev[k2]);
                                        }
                                    }
                                }
                                assert forall|k2: int| id + 1 <= k2 < tracks implies #[trigger]
                                table_views16(out@)[k2] == before[k2] by {
                                    assert(out@[k2] == prev[k2]);
                                    assert(table_views16(prev)[k2] == before[k2]);
                                }
                            }
                            id = id + 1;
                            p = e;
                        }
                    }
                    proof {
                        assert(rstr.subrange(rs_e - rs_s, rs_e - rs_s) =~= Seq::<char>::empty());
                        assert(tokens_from(rstr, rs_e - rs_s) =~~= Seq::<Seq<char>>::empty());
                        assert(toks.skip(id as int).len() == 0);
                        assert(toks.len() == id);
                    }
                    if id != tracks {
                        proof {
                            assert(line_step(before, line, tracks as nat) == Err::<
                                Seq<Seq<(u32, u16)>>,
                                TocError,
                            >(TocError::Checksums));
                            assert(xml_fold(ls, tracks as nat, (li + 1) as nat) == Err::<
                                Seq<Seq<(u32, u16)>>,
                                TocError,
                            >(TocError::Checksums));
                            lemma_xml_fold_err(ls, tracks as nat, (li + 1) as nat, ls.len() as nat);
                        }
                        return Err(TocError::Checksums);
                    }
                    proof {
                        assert(table_views16(out@) =~= apply_crcs(before, toks, conf));
                        assert(line_step(before, line, tracks as nat) == Ok::<_, TocError>(
                            table_views16(out@),
                        ));
                    }
                },
            }
            li = li + 1;
        }
        // At least one checksum must have turned up.
        let mut any: bool = false;
        let mut k2: usize = 0;
        while k2 < tracks
            invariant
                k2 <= tracks,
                out@.len() == tracks,
                any == exists|i: int| 0 <= i < k2 && (#[trigger] out@[i])@.len() > 0,
            decreases tracks - k2,
        {
            if out[k2].len() > 0 {
                any = true;
            }
            k2 = k2 + 1;
        }
        proof {
            assert(li == n_lines && n_lines == ls.len());
            assert(xml_fold(ls, tracks as nat, ls.len() as nat) == Ok::<_, TocError>(
                table_views16(out@),
            ));
        }
        if any {
            proof {
                let w = choose|i: int| 0 <= i < out@.len() && (#[trigger] out@[i])@.len() > 0;
                assert((table_views16(out@)[w]).len() > 0);
                let m = xml_fold(lines_of(xml@), self@.audio.len() as nat, lines_of(
                    xml@,
                ).len() as nat).unwrap();
                assert(m == table_views16(out@));
                assert(0 <= w < m.len() && m[w].len() > 0);
                assert(exists|k3: int| 0 <= k3 < m.len() && (#[trigger] m[k3]).len() > 0);
            }
            Ok(out)
        } else {
            proof {
                assert forall|i: int| 0 <= i < table_views16(out@).len() implies (#[trigger]
                table_views16(out@)[i]).len() == 0 by {
                    assert(!(out@[i]@.len() > 0));
                }
            }
            Err(TocError::NoChecksums)
        }
    }
}

/// Is the character at `i` something other than ASCII whitespace?
fn ws_free_at(v: &Vec<char>, i: usize) -> (r: bool)
    requires
        i < v@.len(),
    ensures
        r == !is_ascii_ws(v@[i as int]),
{
    !ascii_ws(v[i])
}

} // verus!
