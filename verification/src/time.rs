//! Sector-accurate durations: 75 sectors per second, 588 samples per sector.

use vstd::prelude::*;

use crate::TocError;
use crate::text::dec_fixed;
use crate::text::decu;
use crate::text::push_char;
use crate::text::push_dec2;
use crate::text::push_decu;
use vstd::string::StringExecFns;

verus! {

/// Samples per sector on an audio CD.
pub const SAMPLES_PER_SECTOR: u64 = 588;

/// Sectors per second on an audio CD.
pub const SECTORS_PER_SECOND: u64 = 75;

/// A duration counted in whole CD sectors, exact up to billions of years.
#[derive(Debug, Clone, Copy, PartialEq, Eq, Hash, Structural)]
pub struct Duration(pub(crate) u64);

impl View for Duration {
    type V = u64;

    closed spec fn view(&self) -> u64 {
        self.0
    }
}

impl Default for Duration {
    /// The empty duration.
    fn default() -> (r: Self)
        ensures
            r@ == 0,
    {
        Duration(0)
    }
}

impl From<u64> for Duration {
    /// A duration of exactly `src` sectors.
    fn from(src: u64) -> (r: Self)
        ensures
            r@ == src,
    {
        Duration(src)
    }
}

impl vstd::std_specs::convert::FromSpecImpl<u64> for Duration {
    open spec fn obeys_from_spec() -> bool {
        false
    }

    closed spec fn from_spec(src: u64) -> Self {
        Duration(src)
    }
}

impl From<u32> for Duration {
    /// A duration of exactly `src` sectors.
    fn from(src: u32) -> (r: Self)
        ensures
            r@ == src,
    {
        Duration(src as u64)
    }
}

impl vstd::std_specs::convert::FromSpecImpl<u32> for Duration {
    open spec fn obeys_from_spec() -> bool {
        false
    }

    closed spec fn from_spec(src: u32) -> Self {
        Duration(src as u64)
    }
}

impl From<usize> for Duration {
    /// A duration of exactly `src` sectors.
    fn from(src: usize) -> (r: Self)
        ensures
            r@ == src,
    {
        Duration(src as u64)
    }
}

impl vstd::std_specs::convert::FromSpecImpl<usize> for Duration {
    open spec fn obeys_from_spec() -> bool {
        false
    }

    closed spec fn from_spec(src: usize) -> Self {
        Duration(src as u64)
    }
}

/// The days, hours, minutes, seconds and leftover frames of a sector count.
pub open spec fn spec_dhmsf(sectors: u64) -> (u64, u8, u8, u8, u8) {
    let s = sectors / 75;
    (
        s / 86400,
        ((s % 86400) / 3600) as u8,
        ((s % 3600) / 60) as u8,
        (s % 60) as u8,
        (sectors % 75) as u8,
    )
}

impl Duration {
    /// A duration of exactly `n` sectors.
    pub(crate) fn from_sectors(n: u64) -> (r: Duration)
        ensures
            r@ == n,
    {
        Duration(n)
    }

    /// The duration of a whole number of standard CDDA samples (16-bit
    /// stereo at 44.1 kHz); a total that does not divide into sectors is
    /// refused.
    pub fn from_cdda_samples(total_samples: u64) -> (r: Result<Self, TocError>)
        ensures
            total_samples % 588 == 0 ==> (r matches Ok(d) && d@ == total_samples / 588),
            total_samples % 588 != 0 ==> r == Err::<Duration, _>(TocError::CDDASampleCount),
    {
        if total_samples % SAMPLES_PER_SECTOR == 0 {
            Ok(Duration(total_samples / SAMPLES_PER_SECTOR))
        } else {
            Err(TocError::CDDASampleCount)
        }
    }

    /// The closest CDDA duration for a track with an arbitrary sample rate:
    /// whole seconds scale exactly and the remainder rounds down to a frame.
    pub fn from_samples(sample_rate: u32, total_samples: u64) -> (r: Self)
        requires
            sample_rate > 0 && total_samples > 0 ==> total_samples / (sample_rate as u64) <= (
            u64::MAX - 74) / 75,
        ensures
            (sample_rate == 0 || total_samples == 0) ==> r@ == 0,
            sample_rate > 0 && total_samples > 0 ==> r@ == (total_samples as int) / (
            sample_rate as int) * 75 + ((total_samples as int) % (sample_rate as int)) * 75 / (
            sample_rate as int),
    {
        if sample_rate == 0 || total_samples == 0 {
            Duration(0)
        } else {
            let rate = sample_rate as u64;
            let s = total_samples / rate;
            let rem = total_samples % rate;
            proof {
                assert(rem < rate) by (nonlinear_arith)
                    requires
                        rate > 0,
                        rem == total_samples % rate,
                ;
                assert(rem * 75 <= u64::MAX) by (nonlinear_arith)
                    requires
                        rem < 0x100000000,
                ;
                assert((rem as int) * 75 / (rate as int) <= 74) by (nonlinear_arith)
                    requires
                        rate > 0,
                        rem < rate,
                ;
                assert(s * 75 <= u64::MAX - 74) by (nonlinear_arith)
                    requires
                        s <= (u64::MAX - 74) / 75,
                ;
            }
            Duration(s * 75 + rem * 75 / rate)
        }
    }

    /// The duration split into days, hours, minutes, seconds and frames.
    pub fn dhmsf(self) -> (r: (u64, u8, u8, u8, u8))
        ensures
            r == spec_dhmsf(self@),
    {
        let s = self.0 / 75;
        let f = (self.0 % 75) as u8;
        let d = s / 86400;
        let h = ((s % 86400) / 3600) as u8;
        let m = ((s % 3600) / 60) as u8;
        let sec = (s % 60) as u8;
        (d, h, m, sec, f)
    }

    /// The total number of CDDA samples.
    pub fn samples(self) -> (r: u64)
        requires
            self@ * 588 <= u64::MAX,
        ensures
            r == self@ * 588,
    {
        self.0 * SAMPLES_PER_SECTOR
    }

    /// The total seconds and the frames left over (always below 75).
    pub fn seconds_frames(self) -> (r: (u64, u8))
        ensures
            r.0 == self@ / 75,
            r.1 == self@ % 75,
    {
        (self.0 / SECTORS_PER_SECOND, (self.0 % SECTORS_PER_SECOND) as u8)
    }

    /// The total number of sectors.
    pub fn sectors(self) -> (r: u64)
        ensures
            r == self@,
    {
        self.0
    }
}

// ---------------------------------------------------------------------------
// Rendering.
// ---------------------------------------------------------------------------
/// The clock form of a duration: `HH:MM:SS+FF`, with a leading `Dd ` day
/// count only when there are whole days.
pub open spec fn duration_str(sectors: u64) -> Seq<char> {
    let parts = spec_dhmsf(sectors);
    let clock = dec_fixed(parts.1 as nat, 2) + seq![':'] + dec_fixed(parts.2 as nat, 2) + seq![':']
        + dec_fixed(parts.3 as nat, 2) + seq!['+'] + dec_fixed(parts.4 as nat, 2);
    if parts.0 == 0 {
        clock
    } else {
        decu(parts.0 as nat) + seq!['d', ' '] + clock
    }
}

/// One counted English unit: the number, a space, and the singular or plural
/// word as the count demands.
pub open spec fn counted_str(n: nat, single: Seq<char>, plural: Seq<char>) -> Seq<char> {
    decu(n) + seq![' '] + (if n == 1 {
        single
    } else {
        plural
    })
}

/// The non-zero parts of a duration, largest first, as counted English units.
pub open spec fn pretty_parts(sectors: u64) -> Seq<Seq<char>> {
    let parts = spec_dhmsf(sectors);
    (if parts.0 != 0 {
        seq![counted_str(parts.0 as nat, "day"@, "days"@)]
    } else {
        Seq::empty()
    }) + (if parts.1 != 0 {
        seq![counted_str(parts.1 as nat, "hour"@, "hours"@)]
    } else {
        Seq::empty()
    }) + (if parts.2 != 0 {
        seq![counted_str(parts.2 as nat, "minute"@, "minutes"@)]
    } else {
        Seq::empty()
    }) + (if parts.3 != 0 {
        seq![counted_str(parts.3 as nat, "second"@, "seconds"@)]
    } else {
        Seq::empty()
    }) + (if parts.4 != 0 {
        seq![counted_str(parts.4 as nat, "frame"@, "frames"@)]
    } else {
        Seq::empty()
    })
}

/// Everything but the last part joined with `", "`.
pub open spec fn joined_str(ps: Seq<Seq<char>>) -> Seq<char>
    decreases ps.len(),
{
    if ps.len() == 0 {
        Seq::empty()
    } else if ps.len() == 1 {
        ps[0]
    } else {
        joined_str(ps.drop_last()) + ", "@ + ps.last()
    }
}

/// The Oxford-comma English form of a duration: nothing becomes
/// `"0 seconds"`, one part stands alone, two are joined with `" and "`, and
/// more are comma-joined with `", and "` before the last.
pub open spec fn pretty_str(sectors: u64) -> Seq<char> {
    let ps = pretty_parts(sectors);
    if ps.len() == 0 {
        "0 seconds"@
    } else if ps.len() == 1 {
        ps[0]
    } else if ps.len() == 2 {
        ps[0] + " and "@ + ps[1]
    } else {
        joined_str(ps.drop_last()) + ", and "@ + ps.last()
    }
}

impl Duration {
    /// Render the clock form, `HH:MM:SS+FF` with an optional leading day
    /// count.
    pub fn to_string(&self) -> (r: String)
        ensures
            r@ == duration_str(self@),
    {
        let (d, h, m, s, f) = self.dhmsf();
        let mut out = String::new();
        if d != 0 {
            push_decu(&mut out, d);
            push_char(&mut out, 'd');
            push_char(&mut out, ' ');
        }
        push_dec2(&mut out, h as u64);
        push_char(&mut out, ':');
        push_dec2(&mut out, m as u64);
        push_char(&mut out, ':');
        push_dec2(&mut out, s as u64);
        push_char(&mut out, '+');
        push_dec2(&mut out, f as u64);
        proof {
            assert(out@ =~= duration_str(self@));
        }
        out
    }

    /// Render the English form, each non-zero unit named and the list joined
    /// Oxford-comma style.
    pub fn to_string_pretty(&self) -> (r: String)
        ensures
            r@ == pretty_str(self@),
    {
        let (d, h, m, s, f) = self.dhmsf();
        let mut parts: Vec<String> = Vec::new();
        let ghost ps = pretty_parts(self@);
        if d != 0 {
            parts.push(counted(d, "day", "days"));
        }
        if h != 0 {
            parts.push(counted(h as u64, "hour", "hours"));
        }
        if m != 0 {
            parts.push(counted(m as u64, "minute", "minutes"));
        }
        if s != 0 {
            parts.push(counted(s as u64, "second", "seconds"));
        }
        if f != 0 {
            parts.push(counted(f as u64, "frame", "frames"));
        }
        proof {
            assert(Seq::new(parts@.len(), |i: int| parts@[i]@) =~~= ps);
        }
        let n = parts.len();
        if n == 0 {
            let out = String::from_str("0 seconds");
            return out;
        }
        if n == 1 {
            let mut out = String::new();
            out.append(parts[0].as_str());
            proof {
                assert(out@ =~= pretty_str(self@));
            }
            return out;
        }
        if n == 2 {
            let mut out = String::new();
            out.append(parts[0].as_str());
            out.append(" and ");
            out.append(parts[1].as_str());
            proof {
                assert(out@ =~= pretty_str(self@));
            }
            return out;
        }
        let mut out = String::new();
        out.append(parts[0].as_str());
        proof {
            assert(out@ =~= joined_str(ps.subrange(0, 1)));
        }
        let mut i: usize = 1;
        while i < n - 1
            invariant
                1 <= i <= n - 1,
                n == parts@.len(),
                ps == Seq::new(parts@.len(), |j: int| parts@[j]@),
                ps.len() == n,
                out@ == joined_str(ps.subrange(0, i as int)),
            decreases n - i,
        {
            out.append(", ");
            out.append(parts[i].as_str());
            proof {
                assert(ps.subrange(0, i + 1).drop_last() =~= ps.subrange(0, i as int));
                assert(ps.subrange(0, i + 1).last() == parts@[i as int]@);
                assert(out@ =~= joined_str(ps.subrange(0, i + 1)));
            }
            i = i + 1;
        }
        out.append(", and ");
        out.append(parts[n - 1].as_str());
        proof {
            assert(ps.subrange(0, n - 1) =~= ps.drop_last());
            assert(ps.last() == parts@[n - 1]@);
            assert(out@ =~= pretty_str(self@));
        }
        out
    }
}

/// Render one counted English unit, as [`counted_str`] states it.
fn counted(n: u64, single: &str, plural: &str) -> (r: String)
    ensures
        r@ == counted_str(n as nat, single@, plural@),
{
    let mut out = String::new();
    push_decu(&mut out, n);
    push_char(&mut out, ' ');
    if n == 1 {
        out.append(single);
    } else {
        out.append(plural);
    }
    proof {
        assert(out@ =~= counted_str(n as nat, single@, plural@));
    }
    out
}

// ---------------------------------------------------------------------------
// Conversion to the standard library's duration.
// ---------------------------------------------------------------------------
/// The whole seconds and leftover nanoseconds of the standard-library view
/// of a sector count: 40 million nanoseconds per three sectors, split at the
/// second, computed piecewise when the product would overflow.
pub open spec fn spec_std_parts(sectors: u64) -> (u64, u32) {
    if sectors * 40000000 <= u64::MAX {
        let n = (sectors * 40000000) as u64 / 3;
        (n / 1000000000, (n % 1000000000) as u32)
    } else {
        (sectors / 75, (((sectors % 75) * 40000000) / 3) as u32)
    }
}

/// Relies on `core::time::Duration::new`: the duration of the given whole
/// seconds plus nanoseconds (kept below one billion so it cannot panic).
#[verifier::external_body]
fn std_duration_new(secs: u64, nanos: u32) -> core::time::Duration
    requires
        nanos < 1000000000,
{
    core::time::Duration::new(secs, nanos)
}

impl Duration {
    /// The seconds and nanoseconds of the (slightly lossy) standard-library
    /// view, exactly as [`spec_std_parts`] states them.
    pub fn std_duration_parts(self) -> (r: (u64, u32))
        ensures
            r == spec_std_parts(self@),
            r.1 < 1000000000,
    {
        match self.0.checked_mul(40000000) {
            Some(n) => {
                let t = n / 3;
                (t / 1000000000, (t % 1000000000) as u32)
            },
            None => {
                let s = self.0 / 75;
                let f = self.0 % 75;
                (s, ((f * 40000000) / 3) as u32)
            },
        }
    }

    /// The duration as a standard-library duration, at nanosecond
    /// resolution (so off by up to a frame's fraction).
    pub fn to_std_duration_lossy(self) -> core::time::Duration {
        let (secs, nanos) = self.std_duration_parts();
        std_duration_new(secs, nanos)
    }
}

} // verus!
