//! The CDDB identifier: a packed 32-bit value built from a digit-sum
//! checksum, the disc's playing time in seconds, and the track count.

use vstd::prelude::*;

use crate::Toc;
use crate::TocError;
use crate::TocView;
use crate::lemma_increasing;
use crate::text::hex_fixed_lower;
use crate::text::hex_group_val;
use crate::text::is_hex_group;
use crate::text::lemma_hex_fixed_lower;
use crate::text::lemma_hex_group_val_bound;
use crate::text::lemma_pow16_values;
use crate::text::parse_hex;
use crate::text::push_hex8_lower;
use crate::text::to_chars;

verus! {

/// The sum of the decimal digits of `n`.
pub open spec fn digit_sum(n: nat) -> nat
    decreases n,
{
    if n < 10 {
        n
    } else {
        digit_sum(n / 10) + n % 10
    }
}

/// A digit sum never exceeds its number.
pub proof fn lemma_digit_sum_le(n: nat)
    ensures
        digit_sum(n) <= n,
    decreases n,
{
    if n >= 10 {
        lemma_digit_sum_le(n / 10);
    }
}

/// The sum of the per-sector digit sums: each sector contributes the digit
/// sum of its second count (`sector / 75`).
pub open spec fn digit_sum_tally(audio: Seq<u32>) -> nat
    decreases audio.len(),
{
    if audio.len() == 0 {
        0
    } else {
        digit_sum_tally(audio.drop_last()) + digit_sum((audio.last() / 75) as nat)
    }
}

/// The packed CDDB value of a table of contents: one checksum byte (the
/// digit-sum tally of every track start, data included, modulo 255), two
/// big-endian bytes of total seconds (leadout less leadin, truncated), and
/// one byte of total track count (audio plus data).
pub open spec fn cddb_of(v: TocView) -> u32 {
    let a = (digit_sum_tally(v.audio) + if v.has_data() {
        digit_sum((v.data / 75) as nat)
    } else {
        0
    }) % 255;
    let b = ((v.leadout / 75) - (v.spec_leadin() / 75)) % 0x10000;
    let c = v.audio.len() + if v.has_data() {
        1int
    } else {
        0int
    };
    (a * 0x1000000 + b * 0x100 + c) as u32
}

/// A CDDB identifier: a packed 32-bit value.
#[derive(Debug, Clone, Copy, PartialEq, Eq, Hash, Structural)]
pub struct Cddb(pub(crate) u32);

impl View for Cddb {
    type V = u32;

    closed spec fn view(&self) -> u32 {
        self.0
    }
}

/// Whether a string decodes as a CDDB identifier: exactly eight hex digits.
pub open spec fn cddb_decode_ok(s: Seq<char>) -> bool {
    s.len() == 8 && is_hex_group(s, 8)
}

impl Cddb {
    /// Wrap a packed value.
    pub(crate) fn from_value(n: u32) -> (r: Cddb)
        ensures
            r@ == n,
    {
        Cddb(n)
    }

    /// The packed 32-bit value.
    pub fn value(&self) -> (r: u32)
        ensures
            r == self@,
    {
        self.0
    }

    /// Decode the eight-hex-digit form back into an identifier.
    pub fn decode(src: &str) -> (r: Result<Self, TocError>)
        ensures
            cddb_decode_ok(src@) ==> (r matches Ok(x) && x@ == hex_group_val(src@)),
            !cddb_decode_ok(src@) ==> r == Err::<Cddb, _>(TocError::CddbDecode),
    {
        let v = to_chars(src);
        if v.len() != 8 {
            return Err(TocError::CddbDecode);
        }
        let parsed = parse_hex(&v, 0, 8, 8);
        proof {
            assert(v@.subrange(0, 8) =~= src@);
        }
        match parsed {
            Some(n) => {
                proof {
                    lemma_hex_group_val_bound(src@);
                    lemma_pow16_values();
                }
                Ok(Cddb(n as u32))
            },
            None => Err(TocError::CddbDecode),
        }
    }

    /// Render the identifier as eight lowercase hex digits.
    pub fn to_string(&self) -> (r: String)
        ensures
            r@ == hex_fixed_lower(self@ as nat, 8),
    {
        let mut out = String::new();
        push_hex8_lower(&mut out, self.0);
        proof {
            assert(out@ =~= hex_fixed_lower(self@ as nat, 8));
        }
        out
    }
}

impl core::str::FromStr for Cddb {
    type Err = TocError;

    fn from_str(src: &str) -> Result<Self, Self::Err> {
        Self::decode(src)
    }
}

impl TryFrom<&str> for Cddb {
    type Error = TocError;

    fn try_from(src: &str) -> Result<Self, Self::Error> {
        Self::decode(src)
    }
}

impl vstd::std_specs::convert::TryFromSpecImpl<&str> for Cddb {
    open spec fn obeys_try_from_spec() -> bool {
        false
    }

    open spec fn try_from_spec(v: &str) -> Result<Self, TocError> {
        Err(TocError::CddbDecode)
    }
}

/// Rendering an identifier and decoding the result restores it bit for bit.
pub proof fn lemma_cddb_round_trip(n: u32)
    ensures
        cddb_decode_ok(hex_fixed_lower(n as nat, 8)),
        hex_group_val(hex_fixed_lower(n as nat, 8)) == n,
{
    lemma_pow16_values();
    lemma_hex_fixed_lower(n as nat, 8);
}

/// The sum of the decimal digits of `n`, computed a digit at a time.
fn digit_sum_exec(n: u32) -> (r: u32)
    ensures
        r == digit_sum(n as nat),
{
    let mut m = n;
    let mut acc: u32 = 0;
    proof {
        lemma_digit_sum_le(n as nat);
    }
    while m >= 10
        invariant
            acc + digit_sum(m as nat) == digit_sum(n as nat),
            digit_sum(n as nat) <= n,
            acc <= n,
        decreases m,
    {
        proof {
            lemma_digit_sum_le((m / 10) as nat);
        }
        acc = acc + m % 10;
        m = m / 10;
    }
    acc + m
}

impl Toc {
    /// The CDDB identifier for this table of contents.
    #[verifier::rlimit(50)]
    pub fn cddb_id(&self) -> (r: Cddb)
        requires
            self@.wf(),
        ensures
            r@ == cddb_of(self@),
    {
        let sectors = self.audio_sectors();
        let len = sectors.len();
        let mut a: u64 = 0;
        let mut i: usize = 0;
        while i < len
            invariant
                i <= len,
                len == self@.audio.len() <= 99,
                sectors@ == self@.audio,
                a == digit_sum_tally(self@.audio.subrange(0, i as int)),
                a <= i * 0x100000000,
            decreases len - i,
        {
            proof {
                lemma_digit_sum_le((self@.audio[i as int] / 75) as nat);
                assert(self@.audio.subrange(0, i + 1).drop_last() =~= self@.audio.subrange(
                    0,
                    i as int,
                ));
                assert(self@.audio.subrange(0, i + 1).last() == self@.audio[i as int]);
            }
            let d = digit_sum_exec(sectors[i] / 75);
            a = a + (d as u64);
            i = i + 1;
        }
        proof {
            assert(self@.audio.subrange(0, len as int) =~= self@.audio);
        }
        if self.has_data() {
            let dsec = match self.data_sector() {
                Some(d) => d,
                None => 0,
            };
            proof {
                lemma_digit_sum_le((dsec / 75) as nat);
            }
            let d = digit_sum_exec(dsec / 75);
            a = a + (d as u64);
        }
        let a8 = (a % 255) as u32;
        proof {
            lemma_increasing(self@.audio, 0, self@.audio.len() - 1);
        }
        let secs = self.leadout() / 75 - self.leadin() / 75;
        let b16 = (secs % 0x10000) as u32;
        let c8 = (if self.has_data() {
            len + 1
        } else {
            len
        }) as u32;
        let packed = a8 * 0x1000000 + b16 * 0x100 + c8;
        proof {
            assert(packed == cddb_of(self@));
        }
        Cddb(packed)
    }
}

} // verus!
