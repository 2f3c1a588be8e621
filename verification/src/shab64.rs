//! The SHA-1/base64 identifier shared by the CUETools-database and
//! MusicBrainz derivations: a 20-byte digest rendered as 28 characters of an
//! almost-standard base64 alphabet (`.` and `_` for the last two values, and
//! a forced trailing `-` pad).

use vstd::prelude::*;

use sha1::Digest;

use crate::TocError;
use crate::text::push_char;
use crate::text::to_chars;

verus! {

/// What SHA-1 returns for a byte sequence: a function of the bytes alone.
pub uninterp spec fn sha1_of(bytes: Seq<u8>) -> Seq<u8>;

/// Relies on `sha1::Sha1::digest`: the 20-byte SHA-1 digest of the input,
/// a function of the input bytes alone.
#[verifier::external_body]
pub(crate) fn sha1_digest(bytes: &Vec<u8>) -> (r: Vec<u8>)
    ensures
        r@ == sha1_of(bytes@),
        r@.len() == 20,
{
    sha1::Sha1::digest(bytes.as_slice()).to_vec()
}

// ---------------------------------------------------------------------------
// The base64 alphabet.
// ---------------------------------------------------------------------------
/// The alphabet character for a six-bit value: standard base64 with `.` and
/// `_` in the last two slots.
pub open spec fn b64_char(v: u8) -> char {
    if v <= 25 {
        ((v + 65) as u8) as char
    } else if v <= 51 {
        ((v + 71) as u8) as char
    } else if v <= 61 {
        ((v - 4) as u8) as char
    } else if v == 62 {
        '.'
    } else {
        '_'
    }
}

/// Whether `c` belongs to the alphabet.
pub open spec fn is_b64_char(c: char) -> bool {
    ('A' <= c && c <= 'Z') || ('a' <= c && c <= 'z') || ('0' <= c && c <= '9') || c == '.' || c
        == '_'
}

/// The six-bit value of an alphabet character.
pub open spec fn b64_val(c: char) -> u8 {
    if 'A' <= c && c <= 'Z' {
        ((c as u32) - 65) as u8
    } else if 'a' <= c && c <= 'z' {
        ((c as u32) - 71) as u8
    } else if '0' <= c && c <= '9' {
        ((c as u32) + 4) as u8
    } else if c == '.' {
        62
    } else if c == '_' {
        63
    } else {
        0
    }
}

/// Decoding inverts encoding on every six-bit value.
pub proof fn lemma_b64_char_val(v: u8)
    requires
        v < 64,
    ensures
        is_b64_char(b64_char(v)),
        b64_val(b64_char(v)) == v,
{
}

/// Encode a six-bit value into the alphabet.
fn base64_encode(byte: u8) -> (c: char)
    requires
        byte < 64,
    ensures
        c == b64_char(byte),
{
    if byte <= 25 {
        (byte + 65) as char
    } else if byte <= 51 {
        (byte + 71) as char
    } else if byte <= 61 {
        (byte - 4) as char
    } else if byte == 62 {
        '.'
    } else {
        '_'
    }
}

/// Decode an alphabet character; anything else is refused.
fn base64_decode(byte: char) -> (r: Result<u8, TocError>)
    ensures
        is_b64_char(byte) ==> r == Ok::<_, TocError>(b64_val(byte)) && b64_val(byte) < 64,
        !is_b64_char(byte) ==> r == Err::<u8, _>(TocError::ShaB64Decode),
{
    if 'A' <= byte && byte <= 'Z' {
        Ok((byte as u32 - 65) as u8)
    } else if 'a' <= byte && byte <= 'z' {
        Ok((byte as u32 - 71) as u8)
    } else if '0' <= byte && byte <= '9' {
        Ok((byte as u32 + 4) as u8)
    } else if byte == '.' {
        Ok(62)
    } else if byte == '_' {
        Ok(63)
    } else {
        Err(TocError::ShaB64Decode)
    }
}

// ---------------------------------------------------------------------------
// Rendering 20 bytes as 28 characters.
// ---------------------------------------------------------------------------
/// The four alphabet characters of one three-byte group.
pub open spec fn b64_quad(b0: u8, b1: u8, b2: u8) -> Seq<char> {
    seq![
        b64_char(b0 >> 2),
        b64_char((b0 & 3) << 4 | b1 >> 4),
        b64_char((b1 & 15) << 2 | b2 >> 6),
        b64_char(b2 & 63),
    ]
}

/// The first `k` three-byte groups of `bytes`, rendered.
pub open spec fn b64_quads(bytes: Seq<u8>, k: nat) -> Seq<char>
    decreases k,
{
    if k == 0 {
        Seq::empty()
    } else {
        b64_quads(bytes, (k - 1) as nat) + b64_quad(
            bytes[3 * (k - 1)],
            bytes[3 * (k - 1) + 1],
            bytes[3 * (k - 1) + 2],
        )
    }
}

/// The full 28-character rendering of a 20-byte digest: six whole groups,
/// three characters covering the final two bytes (their three spare low bits
/// forced to zero), and the `-` pad.
pub open spec fn shab64_chars(bytes: Seq<u8>) -> Seq<char> {
    b64_quads(bytes, 6) + seq![
        b64_char(bytes[18] >> 2),
        b64_char((bytes[18] & 3) << 4 | bytes[19] >> 4),
        b64_char((bytes[19] & 15) << 2),
        '-',
    ]
}

// ---------------------------------------------------------------------------
// Decoding 28 characters to 20 bytes.
// ---------------------------------------------------------------------------
/// Whether a string is decodable: exactly 28 characters, the last the `-`
/// pad, the rest alphabet characters.
pub open spec fn shab64_decode_ok(s: Seq<char>) -> bool {
    s.len() == 28 && s[27] == '-' && (forall|i: int| 0 <= i < 27 ==> is_b64_char(#[trigger] s[i]))
}

/// The byte a decode yields at index `i` of 20.
pub open spec fn shab64_decode_byte(s: Seq<char>, i: int) -> u8 {
    let g = i / 3;
    if i % 3 == 0 {
        (b64_val(s[4 * g]) & 63) << 2 | b64_val(s[4 * g + 1]) >> 4
    } else if i % 3 == 1 {
        (b64_val(s[4 * g + 1]) & 15) << 4 | b64_val(s[4 * g + 2]) >> 2
    } else {
        (b64_val(s[4 * g + 2]) & 3) << 6 | b64_val(s[4 * g + 3]) & 63
    }
}

/// The 20 bytes a decodable string yields.
pub open spec fn shab64_decode_bytes(s: Seq<char>) -> Seq<u8> {
    Seq::new(20, |i: int| shab64_decode_byte(s, i))
}

// ---------------------------------------------------------------------------
// The identifier itself.
// ---------------------------------------------------------------------------
/// A 20-byte SHA-1 digest, rendered on demand through the modified base64
/// alphabet. Both the CUETools-database and MusicBrainz identifiers are of
/// this shape.
#[derive(Debug, Clone)]
pub struct ShaB64 {
    /// The digest bytes.
    bytes: Vec<u8>,
}

impl View for ShaB64 {
    type V = Seq<u8>;

    closed spec fn view(&self) -> Seq<u8> {
        self.bytes@
    }
}

impl ShaB64 {
    /// Every identifier the library hands out holds exactly 20 bytes.
    pub open spec fn wf(&self) -> bool {
        self@.len() == 20
    }

    /// Wrap a digest.
    pub(crate) fn from_digest(bytes: Vec<u8>) -> (r: Self)
        ensures
            r@ == bytes@,
    {
        ShaB64 { bytes }
    }
}

impl PartialEq for ShaB64 {
    /// Two identifiers are equal when their digests are.
    fn eq(&self, other: &Self) -> (r: bool) {
        broadcast use vstd::laws_eq::group_laws_eq;

        let r = self.bytes == other.bytes;
        proof {
            if r {
                assert(self.bytes@ =~= other.bytes@);
            }
        }
        r
    }
}

impl vstd::std_specs::cmp::PartialEqSpecImpl for ShaB64 {
    open spec fn obeys_eq_spec() -> bool {
        true
    }

    open spec fn eq_spec(&self, other: &Self) -> bool {
        self@ == other@
    }
}

impl Eq for ShaB64 {}

impl ShaB64 {
    /// Decode a rendered identifier back to its digest: exactly 28
    /// characters, the 28th the `-` pad; the three spare bits of the 27th
    /// character are ignored.
    pub fn decode(src: &str) -> (r: Result<Self, TocError>)
        ensures
            shab64_decode_ok(src@) ==> (r matches Ok(x) && x@ == shab64_decode_bytes(src@)
                && x.wf()),
            !shab64_decode_ok(src@) ==> r == Err::<ShaB64, _>(TocError::ShaB64Decode),
    {
        let v = to_chars(src);
        if v.len() != 28 {
            return Err(TocError::ShaB64Decode);
        }
        if v[27] != '-' {
            return Err(TocError::ShaB64Decode);
        }
        let mut out: Vec<u8> = Vec::new();
        let mut g: usize = 0;
        while g < 6
            invariant
                g <= 6,
                v@ == src@,
                v@.len() == 28,
                v@[27] == '-',
                out@.len() == 3 * g,
                forall|i: int| 0 <= i < 27 && i < 4 * g ==> is_b64_char(#[trigger] v@[i]),
                forall|j: int| 0 <= j < 3 * g ==> #[trigger] out@[j] == shab64_decode_byte(v@, j),
            decreases 6 - g,
        {
            let a = match base64_decode(v[4 * g]) {
                Ok(x) => x,
                Err(e) => {
                    return Err(e);
                },
            };
            let b = match base64_decode(v[4 * g + 1]) {
                Ok(x) => x,
                Err(e) => {
                    return Err(e);
                },
            };
            let c = match base64_decode(v[4 * g + 2]) {
                Ok(x) => x,
                Err(e) => {
                    return Err(e);
                },
            };
            let d = match base64_decode(v[4 * g + 3]) {
                Ok(x) => x,
                Err(e) => {
                    return Err(e);
                },
            };
            out.push((a & 63) << 2 | b >> 4);
            out.push((b & 15) << 4 | c >> 2);
            out.push((c & 3) << 6 | d & 63);
            proof {
                assert(forall|j: int|
                    3 * g <= j < 3 * (g + 1) ==> #[trigger] out@[j] == shab64_decode_byte(v@, j));
            }
            g = g + 1;
        }
        let a = match base64_decode(v[24]) {
            Ok(x) => x,
            Err(e) => {
                return Err(e);
            },
        };
        let b = match base64_decode(v[25]) {
            Ok(x) => x,
            Err(e) => {
                return Err(e);
            },
        };
        let c = match base64_decode(v[26]) {
            Ok(x) => x,
            Err(e) => {
                return Err(e);
            },
        };
        out.push((a & 63) << 2 | b >> 4);
        out.push((b & 15) << 4 | c >> 2);
        proof {
            assert(shab64_decode_ok(v@));
            assert(out@ =~= shab64_decode_bytes(v@));
        }
        Ok(ShaB64 { bytes: out })
    }

    /// Append the 28-character rendering of this identifier to `out`.
    pub fn push_to_string(&self, out: &mut String)
        requires
            self.wf(),
        ensures
            final(out)@ == old(out)@ + shab64_chars(self@),
    {
        let mut g: usize = 0;
        while g < 6
            invariant
                g <= 6,
                self.wf(),
                out@ == old(out)@ + b64_quads(self@, g as nat),
            decreases 6 - g,
        {
            let b0 = self.bytes[3 * g];
            let b1 = self.bytes[3 * g + 1];
            let b2 = self.bytes[3 * g + 2];
            proof {
                lemma_shift_bounds(b0, b1, b2);
            }
            push_char(out, base64_encode(b0 >> 2));
            push_char(out, base64_encode((b0 & 3) << 4 | b1 >> 4));
            push_char(out, base64_encode((b1 & 15) << 2 | b2 >> 6));
            push_char(out, base64_encode(b2 & 63));
            proof {
                assert(out@ =~= old(out)@ + b64_quads(self@, (g + 1) as nat));
            }
            g = g + 1;
        }
        let b0 = self.bytes[18];
        let b1 = self.bytes[19];
        proof {
            lemma_shift_bounds(b0, b1, 0);
        }
        push_char(out, base64_encode(b0 >> 2));
        push_char(out, base64_encode((b0 & 3) << 4 | b1 >> 4));
        push_char(out, base64_encode((b1 & 15) << 2));
        push_char(out, '-');
        proof {
            assert(out@ =~= old(out)@ + shab64_chars(self@));
        }
    }

    /// Render the identifier: 28 characters ending in the `-` pad.
    pub fn to_string(&self) -> (r: String)
        requires
            self.wf(),
        ensures
            r@ == shab64_chars(self@),
    {
        let mut out = String::new();
        self.push_to_string(&mut out);
        proof {
            assert(out@ =~= shab64_chars(self@));
        }
        out
    }
}

impl core::str::FromStr for ShaB64 {
    type Err = TocError;

    fn from_str(src: &str) -> Result<Self, Self::Err> {
        Self::decode(src)
    }
}

impl TryFrom<&str> for ShaB64 {
    type Error = TocError;

    fn try_from(src: &str) -> Result<Self, Self::Error> {
        Self::decode(src)
    }
}

impl vstd::std_specs::convert::TryFromSpecImpl<&str> for ShaB64 {
    open spec fn obeys_try_from_spec() -> bool {
        false
    }

    open spec fn try_from_spec(v: &str) -> Result<Self, TocError> {
        Err(TocError::ShaB64Decode)
    }
}

// ---------------------------------------------------------------------------
// The round-trip law.
// ---------------------------------------------------------------------------
/// All four six-bit pieces of a three-byte group are below 64.
proof fn lemma_shift_bounds(b0: u8, b1: u8, b2: u8)
    ensures
        b0 >> 2 < 64,
        (b0 & 3) << 4 | b1 >> 4 < 64,
        (b1 & 15) << 2 | b2 >> 6 < 64,
        b2 & 63 < 64,
        (b1 & 15) << 2 < 64,
    decreases b0,
{
    assert(b0 >> 2 < 64) by (bit_vector);
    assert((b0 & 3) << 4 | b1 >> 4 < 64) by (bit_vector);
    assert((b1 & 15) << 2 | b2 >> 6 < 64) by (bit_vector);
    assert(b2 & 63 < 64) by (bit_vector);
    assert((b1 & 15) << 2 < 64) by (bit_vector);
}

/// Splitting three bytes into six-bit pieces and reassembling them loses
/// nothing (the third byte's reassembly needs its own fourth piece).
proof fn lemma_b64_bits(b0: u8, b1: u8, b2: u8)
    ensures
        ((b0 >> 2) & 63) << 2 | ((b0 & 3) << 4 | b1 >> 4) >> 4 == b0,
        (((b0 & 3) << 4 | b1 >> 4) & 15) << 4 | ((b1 & 15) << 2 | b2 >> 6) >> 2 == b1,
        (((b0 & 3) << 4 | b1 >> 4) & 15) << 4 | ((b1 & 15) << 2) >> 2 == b1,
        (((b1 & 15) << 2 | b2 >> 6) & 3) << 6 | (b2 & 63) & 63 == b2,
{
    assert(((b0 >> 2) & 63) << 2 | ((b0 & 3) << 4 | b1 >> 4) >> 4 == b0) by (bit_vector);
    assert((((b0 & 3) << 4 | b1 >> 4) & 15) << 4 | ((b1 & 15) << 2 | b2 >> 6) >> 2 == b1)
        by (bit_vector);
    assert((((b0 & 3) << 4 | b1 >> 4) & 15) << 4 | ((b1 & 15) << 2) >> 2 == b1) by (bit_vector);
    assert((((b1 & 15) << 2 | b2 >> 6) & 3) << 6 | (b2 & 63) & 63 == b2) by (bit_vector);
}

/// Each rendered group sits at its own four characters.
proof fn lemma_quads_index(bytes: Seq<u8>, k: nat)
    ensures
        b64_quads(bytes, k).len() == 4 * k,
        forall|g: int, t: int|
            0 <= g < k && 0 <= t < 4 ==> #[trigger] b64_quads(bytes, k)[4 * g + t] == b64_quad(
                bytes[3 * g],
                bytes[3 * g + 1],
                bytes[3 * g + 2],
            )[t],
    decreases k,
{
    if k > 0 {
        lemma_quads_index(bytes, (k - 1) as nat);
        assert forall|g: int, t: int| 0 <= g < k && 0 <= t < 4 implies #[trigger] b64_quads(
            bytes,
            k,
        )[4 * g + t] == b64_quad(bytes[3 * g], bytes[3 * g + 1], bytes[3 * g + 2])[t] by {
            if g < k - 1 {
                assert(b64_quads(bytes, k)[4 * g + t] == b64_quads(bytes, (k - 1) as nat)[4 * g
                    + t]);
            }
        }
    }
}

/// Rendering a 20-byte digest and decoding the result restores the digest
/// bit for bit.
pub proof fn lemma_shab64_round_trip(bytes: Seq<u8>)
    requires
        bytes.len() == 20,
    ensures
        shab64_decode_ok(shab64_chars(bytes)),
        shab64_decode_bytes(shab64_chars(bytes)) == bytes,
{
    let s = shab64_chars(bytes);
    lemma_quads_index(bytes, 6);
    assert(s.len() == 28);
    assert(s[27] == '-');
    assert forall|i: int| 0 <= i < 27 implies is_b64_char(#[trigger] s[i]) by {
        if i < 24 {
            let g = i / 4;
            let t = i % 4;
            assert(i == 4 * g + t);
            assert(b64_quads(bytes, 6)[4 * g + t] == b64_quad(
                bytes[3 * g],
                bytes[3 * g + 1],
                bytes[3 * g + 2],
            )[t]);
            assert(s[i] == b64_quads(bytes, 6)[i]);
            lemma_shift_bounds(bytes[3 * g], bytes[3 * g + 1], bytes[3 * g + 2]);
            lemma_b64_char_val(b64_val_of_quad(bytes, g, t));
        } else {
            lemma_shift_bounds(bytes[18], bytes[19], 0);
            if i == 24 {
                lemma_b64_char_val(bytes[18] >> 2);
            } else if i == 25 {
                lemma_b64_char_val((bytes[18] & 3) << 4 | bytes[19] >> 4);
            } else {
                lemma_b64_char_val((bytes[19] & 15) << 2);
            }
        }
    }
    assert forall|i: int| 0 <= i < 20 implies shab64_decode_bytes(s)[i] == bytes[i] by {
        let g = i / 3;
        let b0 = bytes[3 * g];
        let b1 = bytes[3 * g + 1];
        let b2 = if 3 * g + 2 < 20 {
            bytes[3 * g + 2]
        } else {
            0
        };
        lemma_shift_bounds(b0, b1, b2);
        lemma_b64_bits(b0, b1, b2);
        if g < 6 {
            assert(b64_quads(bytes, 6)[4 * g + 0] == b64_quad(b0, b1, b2)[0]);
            assert(b64_quads(bytes, 6)[4 * g + 1] == b64_quad(b0, b1, b2)[1]);
            assert(b64_quads(bytes, 6)[4 * g + 2] == b64_quad(b0, b1, b2)[2]);
            assert(b64_quads(bytes, 6)[4 * g + 3] == b64_quad(b0, b1, b2)[3]);
            assert(s[4 * g + 0] == b64_quads(bytes, 6)[4 * g + 0]);
            assert(s[4 * g + 1] == b64_quads(bytes, 6)[4 * g + 1]);
            assert(s[4 * g + 2] == b64_quads(bytes, 6)[4 * g + 2]);
            assert(s[4 * g + 3] == b64_quads(bytes, 6)[4 * g + 3]);
            assert(s[4 * g] == b64_quad(b0, b1, b2)[0]);
            assert(s[4 * g + 1] == b64_quad(b0, b1, b2)[1]);
            assert(s[4 * g + 2] == b64_quad(b0, b1, b2)[2]);
            assert(s[4 * g + 3] == b64_quad(b0, b1, b2)[3]);
            lemma_b64_char_val(b0 >> 2);
            lemma_b64_char_val((b0 & 3) << 4 | b1 >> 4);
            lemma_b64_char_val((b1 & 15) << 2 | b2 >> 6);
            lemma_b64_char_val(b2 & 63);
        } else {
            assert(g == 6);
            assert(s[24] == b64_char(b0 >> 2));
            assert(s[25] == b64_char((b0 & 3) << 4 | b1 >> 4));
            assert(s[26] == b64_char((b1 & 15) << 2));
            lemma_b64_char_val(b0 >> 2);
            lemma_b64_char_val((b0 & 3) << 4 | b1 >> 4);
            lemma_b64_char_val((b1 & 15) << 2);
        }
    }
    assert(shab64_decode_bytes(s) =~= bytes);
}

/// The six-bit value rendered at slot `t` of group `g`.
spec fn b64_val_of_quad(bytes: Seq<u8>, g: int, t: int) -> u8 {
    if t == 0 {
        bytes[3 * g] >> 2
    } else if t == 1 {
        (bytes[3 * g] & 3) << 4 | bytes[3 * g + 1] >> 4
    } else if t == 2 {
        (bytes[3 * g + 1] & 15) << 2 | bytes[3 * g + 2] >> 6
    } else {
        bytes[3 * g + 2] & 63
    }
}

} // verus!
