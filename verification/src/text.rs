//! Character-level primitives shared by the TOC grammar and the identifier
//! codecs: hex and decimal digit encoding/decoding, fixed- and minimal-width
//! renderings, and small string helpers.

use vstd::prelude::*;

verus! {

// ---------------------------------------------------------------------------
// Powers.
// ---------------------------------------------------------------------------
/// 16 to the `k`.
pub open spec fn pow16(k: nat) -> nat
    decreases k,
{
    if k == 0 {
        1
    } else {
        16 * pow16((k - 1) as nat)
    }
}

/// 10 to the `k`.
pub open spec fn pow10(k: nat) -> nat
    decreases k,
{
    if k == 0 {
        1
    } else {
        10 * pow10((k - 1) as nat)
    }
}

pub proof fn lemma_pow16_pos(k: nat)
    ensures
        pow16(k) >= 1,
    decreases k,
{
    if k > 0 {
        lemma_pow16_pos((k - 1) as nat);
    }
}

/// Unfold enough of `pow16` to know the widths that matter here.
pub proof fn lemma_pow16_values()
    ensures
        pow16(1) == 0x10,
        pow16(2) == 0x100,
        pow16(7) == 0x10000000,
        pow16(8) == 0x100000000,
{
    assert(pow16(0) == 1);
    assert(pow16(1) == 0x10);
    assert(pow16(2) == 0x100);
    assert(pow16(3) == 0x1000);
    assert(pow16(4) == 0x10000);
    assert(pow16(5) == 0x100000);
    assert(pow16(6) == 0x1000000);
    assert(pow16(7) == 0x10000000);
    assert(pow16(8) == 0x100000000);
}

// ---------------------------------------------------------------------------
// Hex digits.
// ---------------------------------------------------------------------------
/// Is `c` an ASCII hex digit (either case)?
pub open spec fn is_hex_char(c: char) -> bool {
    ('0' <= c && c <= '9') || ('a' <= c && c <= 'f') || ('A' <= c && c <= 'F')
}

/// The value of a hex digit.
pub open spec fn hex_val(c: char) -> nat {
    if '0' <= c && c <= '9' {
        ((c as nat) - 48) as nat
    } else if 'a' <= c && c <= 'f' {
        ((c as nat) - 87) as nat
    } else if 'A' <= c && c <= 'F' {
        ((c as nat) - 55) as nat
    } else {
        0
    }
}

/// The uppercase hex digit for a value below 16.
pub open spec fn hex_digit_upper(d: nat) -> char {
    if d < 10 {
        ((d + 48) as u8) as char
    } else {
        ((d + 55) as u8) as char
    }
}

/// The lowercase hex digit for a value below 16.
pub open spec fn hex_digit_lower(d: nat) -> char {
    if d < 10 {
        ((d + 48) as u8) as char
    } else {
        ((d + 87) as u8) as char
    }
}

/// The uppercase hex digit for a value below 16, as an ASCII byte.
pub open spec fn hex_digit_upper_byte(d: nat) -> u8 {
    if d < 10 {
        (d + 48) as u8
    } else {
        (d + 55) as u8
    }
}

pub proof fn lemma_hex_digit_upper(d: nat)
    requires
        d < 16,
    ensures
        is_hex_char(hex_digit_upper(d)),
        hex_val(hex_digit_upper(d)) == d,
        hex_digit_upper(d) != '+',
        hex_digit_upper(d) == (hex_digit_upper_byte(d) as char),
{
}

pub proof fn lemma_hex_digit_lower(d: nat)
    requires
        d < 16,
    ensures
        is_hex_char(hex_digit_lower(d)),
        hex_val(hex_digit_lower(d)) == d,
{
}

/// Every character of `s` is a hex digit.
pub open spec fn all_hex(s: Seq<char>) -> bool {
    forall|i: int| 0 <= i < s.len() ==> is_hex_char(#[trigger] s[i])
}

/// A decodable hex group: one to `max` digits.
pub open spec fn is_hex_group(s: Seq<char>, max: nat) -> bool {
    1 <= s.len() <= max && all_hex(s)
}

/// The value of a hex group, most significant digit first.
pub open spec fn hex_group_val(s: Seq<char>) -> nat
    decreases s.len(),
{
    if s.len() == 0 {
        0
    } else {
        hex_group_val(s.drop_last()) * 16 + hex_val(s.last())
    }
}

pub proof fn lemma_hex_group_val_bound(s: Seq<char>)
    ensures
        hex_group_val(s) < pow16(s.len()),
    decreases s.len(),
{
    if s.len() > 0 {
        lemma_hex_group_val_bound(s.drop_last());
        assert(hex_val(s.last()) < 16);
    }
}

/// The value of a one-digit group is the digit's value.
pub proof fn lemma_hex_group_singleton(c: char)
    ensures
        hex_group_val(seq![c]) == hex_val(c),
{
    assert(seq![c].drop_last() =~= Seq::<char>::empty());
    assert(hex_group_val(Seq::<char>::empty()) == 0);
    assert(seq![c].last() == c);
}

/// Splitting a group anywhere splits its value by a power of 16.
pub proof fn lemma_hex_group_val_concat(a: Seq<char>, b: Seq<char>)
    ensures
        hex_group_val(a + b) == hex_group_val(a) * pow16(b.len()) + hex_group_val(b),
    decreases b.len(),
{
    if b.len() == 0 {
        assert(a + b =~= a);
        assert(pow16(0) == 1);
        assert(hex_group_val(b) == 0);
    } else {
        let bd = b.drop_last();
        let va = hex_group_val(a);
        lemma_hex_group_val_concat(a, bd);
        assert((a + b).drop_last() =~= a + bd);
        assert((a + b).len() == a.len() + b.len());
        assert(hex_group_val(a + b) == hex_group_val(a + bd) * 16 + hex_val((a + b).last()));
        assert((a + b).last() == b.last());
        assert(hex_group_val(b) == hex_group_val(bd) * 16 + hex_val(b.last()));
        assert(pow16(b.len()) == 16 * pow16(bd.len()));
        assert((va * pow16(bd.len()) + hex_group_val(bd)) * 16 == va * pow16(bd.len()) * 16
            + hex_group_val(bd) * 16) by (nonlinear_arith);
        assert(va * pow16(bd.len()) * 16 == va * pow16(b.len())) by (nonlinear_arith)
            requires
                pow16(b.len()) == 16 * pow16(bd.len()),
        ;
    }
}

// ---------------------------------------------------------------------------
// Minimal uppercase hex rendering (the CDTOC group form).
// ---------------------------------------------------------------------------
/// Minimal-width uppercase hex: no leading zeros, and empty for zero itself.
pub open spec fn hexu(n: nat) -> Seq<char>
    decreases n,
{
    if n == 0 {
        Seq::empty()
    } else {
        hexu(n / 16).push(hex_digit_upper(n % 16))
    }
}

pub proof fn lemma_hexu(n: nat)
    ensures
        all_hex(hexu(n)),
        hex_group_val(hexu(n)) == n,
        n > 0 ==> hexu(n).len() >= 1,
        forall|w: nat| n < pow16(w) ==> #[trigger] hexu(n).len() <= w,
    decreases n,
{
    if n == 0 {
    } else {
        lemma_hexu(n / 16);
        lemma_hex_digit_upper(n % 16);
        assert(hexu(n).drop_last() =~= hexu(n / 16));
        assert forall|w: nat| n < pow16(w) implies #[trigger] hexu(n).len() <= w by {
            if w == 0 {
                assert(false);
            } else {
                assert(n / 16 < pow16((w - 1) as nat)) by (nonlinear_arith)
                    requires
                        n < pow16(w),
                        pow16(w) == 16 * pow16((w - 1) as nat),
                ;
            }
        }
    }
}

/// Append the minimal uppercase hex form of `n` to `out`.
pub fn push_hexu(out: &mut String, n: u32)
    ensures
        final(out)@ == old(out)@ + hexu(n as nat),
    decreases n,
{
    if n == 0 {
        proof {
            assert(old(out)@ + hexu(0) =~= old(out)@);
        }
        return ;
    }
    push_hexu(out, n / 16);
    let d: u8 = (n % 16) as u8;
    let c: char = if d < 10 {
        (d + 48) as char
    } else {
        (d + 55) as char
    };
    push_char(out, c);
    proof {
        assert(final(out)@ =~= old(out)@ + hexu(n as nat));
    }
}

// ---------------------------------------------------------------------------
// Fixed-width renderings.
// ---------------------------------------------------------------------------
/// Exactly `w` lowercase hex digits of `n`, most significant first.
pub open spec fn hex_fixed_lower(n: nat, w: nat) -> Seq<char>
    decreases w,
{
    if w == 0 {
        Seq::empty()
    } else {
        seq![hex_digit_lower((n / pow16((w - 1) as nat)) % 16)] + hex_fixed_lower(
            n % pow16((w - 1) as nat),
            (w - 1) as nat,
        )
    }
}

/// Exactly `w` uppercase hex digits of `n`, as ASCII bytes.
pub open spec fn hex_fixed_upper_bytes(n: nat, w: nat) -> Seq<u8>
    decreases w,
{
    if w == 0 {
        Seq::empty()
    } else {
        seq![hex_digit_upper_byte((n / pow16((w - 1) as nat)) % 16)] + hex_fixed_upper_bytes(
            n % pow16((w - 1) as nat),
            (w - 1) as nat,
        )
    }
}

pub proof fn lemma_hex_fixed_lower(n: nat, w: nat)
    requires
        n < pow16(w),
    ensures
        hex_fixed_lower(n, w).len() == w,
        all_hex(hex_fixed_lower(n, w)),
        hex_group_val(hex_fixed_lower(n, w)) == n,
    decreases w,
{
    if w == 0 {
    } else {
        let p = pow16((w - 1) as nat);
        let hi = (n / p) % 16;
        let rest = n % p;
        lemma_pow16_pos((w - 1) as nat);
        assert(rest < p) by (nonlinear_arith)
            requires
                p >= 1,
                rest == n % p,
        ;
        lemma_hex_fixed_lower(rest, (w - 1) as nat);
        lemma_hex_digit_lower(hi);
        let s = hex_fixed_lower(n, w);
        assert(s =~= seq![hex_digit_lower(hi)] + hex_fixed_lower(rest, (w - 1) as nat));
        lemma_hex_group_val_concat(seq![hex_digit_lower(hi)], hex_fixed_lower(rest, (w - 1) as nat));
        lemma_hex_group_singleton(hex_digit_lower(hi));
        assert(hi * p + rest == n) by (nonlinear_arith)
            requires
                p >= 1,
                n < 16 * p,
                hi == (n / p) % 16,
                rest == n % p,
        ;
    }
}

/// Append exactly eight lowercase hex digits of `n` to `out`.
pub fn push_hex8_lower(out: &mut String, n: u32)
    ensures
        final(out)@ == old(out)@ + hex_fixed_lower(n as nat, 8),
{
    let mut m: u32 = n;
    let mut p: u32 = 0x10000000;
    let mut i: usize = 0;
    proof {
        lemma_pow16_values();
    }
    while i < 8
        invariant
            i <= 8,
            i < 8 ==> p == pow16((7 - i) as nat),
            m < (if i < 8 {
                16 * pow16((7 - i) as nat)
            } else {
                1
            }),
            out@ + hex_fixed_lower(m as nat, (8 - i) as nat) == old(out)@ + hex_fixed_lower(
                n as nat,
                8,
            ),
        decreases 8 - i,
    {
        let d: u8 = ((m / p) % 16) as u8;
        let c: char = if d < 10 {
            (d + 48) as char
        } else {
            (d + 87) as char
        };
        proof {
            let w = (8 - i) as nat;
            lemma_pow16_pos((7 - i) as nat);
            assert(hex_fixed_lower(m as nat, w) == seq![hex_digit_lower((m as nat / pow16((w - 1) as nat)) % 16)]
                + hex_fixed_lower(m as nat % pow16((w - 1) as nat), (w - 1) as nat));
            assert((m as nat / pow16((w - 1) as nat)) % 16 == d as nat);
        }
        push_char(out, c);
        let ghost old_m = m as nat;
        m = m % p;
        proof {
            if i < 7 {
                assert(pow16((7 - i) as nat) == 16 * pow16((7 - (i + 1)) as nat));
                assert(m < pow16((7 - i) as nat)) by (nonlinear_arith)
                    requires
                        pow16((7 - i) as nat) >= 1,
                        m == old_m % pow16((7 - i) as nat),
                ;
            } else {
                assert(p == 1);
                assert(m == 0);
            }
            assert(out@ + hex_fixed_lower(m as nat, (8 - (i + 1)) as nat) =~= old(out)@
                + hex_fixed_lower(n as nat, 8));
        }
        if i < 7 {
            p = p / 16;
            proof {
                assert(pow16((7 - i) as nat) / 16 == pow16((7 - (i + 1)) as nat));
            }
        }
        i = i + 1;
    }
    proof {
        assert(out@ + hex_fixed_lower(m as nat, 0) =~= out@);
    }
}

/// Append exactly eight uppercase hex digits of `n` to a byte buffer.
pub fn push_hex8_upper_bytes(out: &mut Vec<u8>, n: u32)
    ensures
        final(out)@ == old(out)@ + hex_fixed_upper_bytes(n as nat, 8),
{
    let mut m: u32 = n;
    let mut p: u32 = 0x10000000;
    let mut i: usize = 0;
    proof {
        lemma_pow16_values();
    }
    while i < 8
        invariant
            i <= 8,
            i < 8 ==> p == pow16((7 - i) as nat),
            m < (if i < 8 {
                16 * pow16((7 - i) as nat)
            } else {
                1
            }),
            out@ + hex_fixed_upper_bytes(m as nat, (8 - i) as nat) == old(out)@
                + hex_fixed_upper_bytes(n as nat, 8),
        decreases 8 - i,
    {
        let d: u8 = ((m / p) % 16) as u8;
        let b: u8 = if d < 10 {
            d + 48
        } else {
            d + 55
        };
        proof {
            let w = (8 - i) as nat;
            lemma_pow16_pos((7 - i) as nat);
            assert(hex_fixed_upper_bytes(m as nat, w) == seq![hex_digit_upper_byte((m as nat / pow16((w - 1) as nat)) % 16)]
                + hex_fixed_upper_bytes(m as nat % pow16((w - 1) as nat), (w - 1) as nat));
            assert((m as nat / pow16((w - 1) as nat)) % 16 == d as nat);
        }
        out.push(b);
        let ghost old_m = m as nat;
        m = m % p;
        proof {
            if i < 7 {
                assert(pow16((7 - i) as nat) == 16 * pow16((7 - (i + 1)) as nat));
                assert(m < pow16((7 - i) as nat)) by (nonlinear_arith)
                    requires
                        pow16((7 - i) as nat) >= 1,
                        m == old_m % pow16((7 - i) as nat),
                ;
            } else {
                assert(p == 1);
                assert(m == 0);
            }
            assert(out@ + hex_fixed_upper_bytes(m as nat, (8 - (i + 1)) as nat) =~= old(out)@
                + hex_fixed_upper_bytes(n as nat, 8));
        }
        if i < 7 {
            p = p / 16;
            proof {
                assert(pow16((7 - i) as nat) / 16 == pow16((7 - (i + 1)) as nat));
            }
        }
        i = i + 1;
    }
    proof {
        assert(out@ + hex_fixed_upper_bytes(m as nat, 0) =~= out@);
    }
}

/// Append exactly two uppercase hex digits of `n` to a byte buffer.
pub fn push_hex2_upper_bytes(out: &mut Vec<u8>, n: u8)
    ensures
        final(out)@ == old(out)@ + hex_fixed_upper_bytes(n as nat, 2),
{
    proof {
        lemma_pow16_values();
    }
    let hi: u8 = n / 16;
    let lo: u8 = n % 16;
    out.push(
        if hi < 10 {
            hi + 48
        } else {
            hi + 55
        },
    );
    out.push(
        if lo < 10 {
            lo + 48
        } else {
            lo + 55
        },
    );
    proof {
        let m = n as nat;
        assert(hex_fixed_upper_bytes(m, 2) == seq![hex_digit_upper_byte((m / pow16(1)) % 16)]
            + hex_fixed_upper_bytes(m % pow16(1), 1));
        assert(hex_fixed_upper_bytes(m % 16, 1) == seq![
            hex_digit_upper_byte(((m % 16) / pow16(0)) % 16),
        ] + hex_fixed_upper_bytes((m % 16) % pow16(0), 0));
        assert((m / 16) % 16 == m / 16);
        assert(((m % 16) / 1) % 16 == m % 16);
        assert(final(out)@ =~= old(out)@ + hex_fixed_upper_bytes(m, 2));
    }
}

/// The lowercase hex digit character for a value below 16.
pub fn hex_lower_char(d: u8) -> (c: char)
    requires
        d < 16,
    ensures
        c == hex_digit_lower(d as nat),
{
    if d < 10 {
        (d + 48) as char
    } else {
        (d + 87) as char
    }
}

// ---------------------------------------------------------------------------
// Decimal digits.
// ---------------------------------------------------------------------------
/// Is `c` an ASCII decimal digit?
pub open spec fn is_dec_char(c: char) -> bool {
    '0' <= c && c <= '9'
}

/// The value of a decimal digit.
pub open spec fn dec_val(c: char) -> nat {
    if is_dec_char(c) {
        ((c as nat) - 48) as nat
    } else {
        0
    }
}

/// The decimal digit for a value below 10.
pub open spec fn dec_digit(d: nat) -> char {
    ((d + 48) as u8) as char
}

pub proof fn lemma_dec_digit(d: nat)
    requires
        d < 10,
    ensures
        is_dec_char(dec_digit(d)),
        dec_val(dec_digit(d)) == d,
        dec_digit(d) != '+',
{
}

/// Every character of `s` is a decimal digit.
pub open spec fn all_dec(s: Seq<char>) -> bool {
    forall|i: int| 0 <= i < s.len() ==> is_dec_char(#[trigger] s[i])
}

/// The value of a decimal group, most significant digit first.
pub open spec fn dec_group_val(s: Seq<char>) -> nat
    decreases s.len(),
{
    if s.len() == 0 {
        0
    } else {
        dec_group_val(s.drop_last()) * 10 + dec_val(s.last())
    }
}

/// Minimal decimal rendering; zero is a single `'0'`.
pub open spec fn decu(n: nat) -> Seq<char>
    decreases n,
{
    if n < 10 {
        seq![dec_digit(n)]
    } else {
        decu(n / 10).push(dec_digit(n % 10))
    }
}

pub proof fn lemma_decu(n: nat)
    ensures
        all_dec(decu(n)),
        dec_group_val(decu(n)) == n,
        decu(n).len() >= 1,
        decu(n)[0] != '+',
    decreases n,
{
    if n < 10 {
        lemma_dec_digit(n);
        lemma_dec_group_singleton(dec_digit(n));
    } else {
        lemma_decu(n / 10);
        lemma_dec_digit(n % 10);
        assert(decu(n).drop_last() =~= decu(n / 10));
        assert(decu(n).last() == dec_digit(n % 10));
        assert(decu(n)[0] == decu(n / 10)[0]);
    }
}

/// The value of a one-digit group is the digit's value.
pub proof fn lemma_dec_group_singleton(c: char)
    ensures
        dec_group_val(seq![c]) == dec_val(c),
{
    assert(seq![c].drop_last() =~= Seq::<char>::empty());
    assert(dec_group_val(Seq::<char>::empty()) == 0);
    assert(seq![c].last() == c);
}

/// Append the minimal decimal form of `n` to `out`.
pub fn push_decu(out: &mut String, n: u64)
    ensures
        final(out)@ == old(out)@ + decu(n as nat),
    decreases n,
{
    if n < 10 {
        push_char(out, (n as u8 + 48) as char);
        proof {
            assert(final(out)@ =~= old(out)@ + decu(n as nat));
        }
        return ;
    }
    push_decu(out, n / 10);
    push_char(out, ((n % 10) as u8 + 48) as char);
    proof {
        assert(final(out)@ =~= old(out)@ + decu(n as nat));
    }
}

/// Exactly `w` decimal digits of `n`, most significant first.
pub open spec fn dec_fixed(n: nat, w: nat) -> Seq<char>
    decreases w,
{
    if w == 0 {
        Seq::empty()
    } else {
        seq![dec_digit((n / pow10((w - 1) as nat)) % 10)] + dec_fixed(
            n % pow10((w - 1) as nat),
            (w - 1) as nat,
        )
    }
}

pub proof fn lemma_dec_fixed(n: nat, w: nat)
    requires
        n < pow10(w),
    ensures
        dec_fixed(n, w).len() == w,
        all_dec(dec_fixed(n, w)),
        dec_group_val(dec_fixed(n, w)) == n,
    decreases w,
{
    if w == 0 {
    } else {
        let p = pow10((w - 1) as nat);
        let hi = (n / p) % 10;
        let rest = n % p;
        assert(p >= 1) by {
            lemma_pow10_pos((w - 1) as nat);
        }
        assert(rest < p) by (nonlinear_arith)
            requires
                p >= 1,
                rest == n % p,
        ;
        lemma_dec_fixed(rest, (w - 1) as nat);
        let s = dec_fixed(n, w);
        assert(s =~= seq![dec_digit(hi)] + dec_fixed(rest, (w - 1) as nat));
        lemma_dec_group_val_concat(seq![dec_digit(hi)], dec_fixed(rest, (w - 1) as nat));
        lemma_dec_digit(hi);
        lemma_dec_group_singleton(dec_digit(hi));
        assert(hi * p + rest == n) by (nonlinear_arith)
            requires
                p >= 1,
                n < 10 * p,
                hi == (n / p) % 10,
                rest == n % p,
        ;
    }
}

pub proof fn lemma_pow10_pos(k: nat)
    ensures
        pow10(k) >= 1,
    decreases k,
{
    if k > 0 {
        lemma_pow10_pos((k - 1) as nat);
    }
}

pub proof fn lemma_dec_group_val_concat(a: Seq<char>, b: Seq<char>)
    ensures
        dec_group_val(a + b) == dec_group_val(a) * pow10(b.len()) + dec_group_val(b),
    decreases b.len(),
{
    if b.len() == 0 {
        assert(a + b =~= a);
        assert(pow10(0) == 1);
        assert(dec_group_val(b) == 0);
    } else {
        let bd = b.drop_last();
        let va = dec_group_val(a);
        lemma_dec_group_val_concat(a, bd);
        assert((a + b).drop_last() =~= a + bd);
        assert((a + b).len() == a.len() + b.len());
        assert(dec_group_val(a + b) == dec_group_val(a + bd) * 10 + dec_val((a + b).last()));
        assert((a + b).last() == b.last());
        assert(dec_group_val(b) == dec_group_val(bd) * 10 + dec_val(b.last()));
        assert(pow10(b.len()) == 10 * pow10(bd.len()));
        assert((va * pow10(bd.len()) + dec_group_val(bd)) * 10 == va * pow10(bd.len()) * 10
            + dec_group_val(bd) * 10) by (nonlinear_arith);
        assert(va * pow10(bd.len()) * 10 == va * pow10(b.len())) by (nonlinear_arith)
            requires
                pow10(b.len()) == 10 * pow10(bd.len()),
        ;
    }
}

/// Append exactly three decimal digits of `n` to `out`.
pub fn push_dec3(out: &mut String, n: u8)
    ensures
        final(out)@ == old(out)@ + dec_fixed(n as nat, 3),
{
    proof {
        assert(pow10(0) == 1);
        assert(pow10(1) == 10);
        assert(pow10(2) == 100);
    }
    push_char(out, ((n / 100) % 10 + 48) as char);
    push_char(out, ((n / 10) % 10 + 48) as char);
    push_char(out, (n % 10 + 48) as char);
    proof {
        let m = n as nat;
        let m1 = m % 100;
        let m2 = m1 % 10;
        assert(dec_fixed(m, 3) == seq![dec_digit((m / 100) % 10)] + dec_fixed(m1, 2));
        assert(dec_fixed(m1, 2) == seq![dec_digit((m1 / 10) % 10)] + dec_fixed(m2, 1));
        assert(dec_fixed(m2, 1) == seq![dec_digit((m2 / 1) % 10)] + dec_fixed((m2 % 1) as nat, 0));
        assert(dec_fixed((m2 % 1) as nat, 0) == Seq::<char>::empty());
        assert(m1 / 10 % 10 == (m / 10) % 10) by (nonlinear_arith)
            requires
                m1 == m % 100,
        ;
        assert(m2 / 1 % 10 == m % 10) by (nonlinear_arith)
            requires
                m2 == (m % 100) % 10,
        ;
        assert(final(out)@ =~= old(out)@ + dec_fixed(m, 3));
    }
}

/// Append exactly two decimal digits of `n` to `out`.
pub fn push_dec2(out: &mut String, n: u64)
    requires
        n < 100,
    ensures
        final(out)@ == old(out)@ + dec_fixed(n as nat, 2),
{
    proof {
        assert(pow10(0) == 1);
        assert(pow10(1) == 10);
    }
    push_char(out, ((n / 10) as u8 + 48) as char);
    push_char(out, ((n % 10) as u8 + 48) as char);
    proof {
        let m = n as nat;
        assert(dec_fixed(m, 2) == seq![dec_digit((m / 10) % 10)] + dec_fixed(m % 10, 1));
        assert(dec_fixed(m % 10, 1) == seq![dec_digit((m % 10 / 1) % 10)] + dec_fixed(
            (m % 10 % 1) as nat,
            0,
        ));
        assert((m / 10) % 10 == m / 10);
        assert(final(out)@ =~= old(out)@ + dec_fixed(m, 2));
    }
}

// ---------------------------------------------------------------------------
// Whitespace.
// ---------------------------------------------------------------------------
/// ASCII whitespace, as `u8::is_ascii_whitespace` defines it.
pub open spec fn is_ascii_ws(c: char) -> bool {
    c == ' ' || c == '\t' || c == '\n' || c == '\x0C' || c == '\r'
}

/// ASCII whitespace or an ASCII control character.
pub open spec fn is_ws_or_control(c: char) -> bool {
    is_ascii_ws(c) || (c as u32) < 32 || (c as u32) == 127
}

/// Unicode whitespace: the `White_Space` property, written out.
pub open spec fn is_white(c: char) -> bool {
    let u = c as u32;
    u == 0x09 || u == 0x0A || u == 0x0B || u == 0x0C || u == 0x0D || u == 0x20 || u == 0x85 || u
        == 0xA0 || u == 0x1680 || (0x2000 <= u && u <= 0x200A) || u == 0x2028 || u == 0x2029 || u
        == 0x202F || u == 0x205F || u == 0x3000
}

/// Decide `is_ascii_ws`.
pub fn ascii_ws(c: char) -> (r: bool)
    ensures
        r == is_ascii_ws(c),
{
    c == ' ' || c == '\t' || c == '\n' || c == '\x0C' || c == '\r'
}

/// Decide `is_ws_or_control`.
pub fn ws_or_control(c: char) -> (r: bool)
    ensures
        r == is_ws_or_control(c),
{
    let u = c as u32;
    ascii_ws(c) || u < 32 || u == 127
}

/// Decide `is_white`.
pub fn white(c: char) -> (r: bool)
    ensures
        r == is_white(c),
{
    let u = c as u32;
    u == 0x09 || u == 0x0A || u == 0x0B || u == 0x0C || u == 0x0D || u == 0x20 || u == 0x85 || u
        == 0xA0 || u == 0x1680 || (0x2000 <= u && u <= 0x200A) || u == 0x2028 || u == 0x2029 || u
        == 0x202F || u == 0x205F || u == 0x3000
}

// ---------------------------------------------------------------------------
// Exec helpers.
// ---------------------------------------------------------------------------
/// Relies on `String::push`: appends exactly the one character.
#[verifier::external_body]
pub fn push_char(s: &mut String, c: char)
    ensures
        final(s)@ == old(s)@.push(c),
{
    s.push(c);
}

/// Copy the characters of `s` into a vector.
pub fn to_chars(s: &str) -> (r: Vec<char>)
    ensures
        r@ == s@,
{
    let len = s.unicode_len();
    let mut out: Vec<char> = Vec::new();
    let mut i: usize = 0;
    while i < len
        invariant
            i <= len,
            len == s@.len(),
            out@ == s@.subrange(0, i as int),
        decreases len - i,
    {
        out.push(s.get_char(i));
        proof {
            assert(out@ =~= s@.subrange(0, i + 1));
        }
        i = i + 1;
    }
    proof {
        assert(out@ =~= s@);
    }
    out
}

/// Decide `is_hex_char`.
pub fn hex_char(c: char) -> (r: bool)
    ensures
        r == is_hex_char(c),
{
    ('0' <= c && c <= '9') || ('a' <= c && c <= 'f') || ('A' <= c && c <= 'F')
}

/// Parse `v[from..to]` as a hex group of at most `max` digits.
pub fn parse_hex(v: &Vec<char>, from: usize, to: usize, max: usize) -> (r: Option<u64>)
    requires
        from <= to <= v@.len(),
        max <= 8,
    ensures
        match r {
            Some(n) => is_hex_group(v@.subrange(from as int, to as int), max as nat) && n
                == hex_group_val(v@.subrange(from as int, to as int)),
            None => !is_hex_group(v@.subrange(from as int, to as int), max as nat),
        },
{
    let ghost g = v@.subrange(from as int, to as int);
    if to - from < 1 || max < to - from {
        return None;
    }
    let mut acc: u64 = 0;
    let mut i: usize = from;
    proof {
        assert(g.subrange(0, 0) =~= Seq::<char>::empty());
        lemma_pow16_values();
    }
    while i < to
        invariant
            from <= i <= to <= v@.len(),
            to - from <= max <= 8,
            g == v@.subrange(from as int, to as int),
            all_hex(g.subrange(0, i - from)),
            acc == hex_group_val(g.subrange(0, i - from)),
            acc < pow16((i - from) as nat),
        decreases to - i,
    {
        let c = v[i];
        proof {
            assert(g[i - from] == c);
        }
        if !hex_char(c) {
            return None;
        }
        let d: u64 = if '0' <= c && c <= '9' {
            (c as u32 - 48) as u64
        } else if 'a' <= c && c <= 'f' {
            (c as u32 - 87) as u64
        } else {
            (c as u32 - 55) as u64
        };
        proof {
            assert(d == hex_val(c));
            lemma_pow16_values();
            lemma_pow16_mono((i - from) as nat, 7);
        }
        acc = acc * 16 + d;
        proof {
            let k = (i + 1 - from) as int;
            assert(g.subrange(0, k).drop_last() =~= g.subrange(0, k - 1));
            assert(g.subrange(0, k).last() == c);
        }
        i = i + 1;
    }
    proof {
        assert(g.subrange(0, to - from) =~= g);
        lemma_hex_group_val_bound(g);
        lemma_pow16_mono(g.len(), 8);
    }
    Some(acc)
}

pub proof fn lemma_pow16_mono(a: nat, b: nat)
    requires
        a <= b,
    ensures
        pow16(a) <= pow16(b),
    decreases b,
{
    if a < b {
        lemma_pow16_mono(a, (b - 1) as nat);
        lemma_pow16_pos((b - 1) as nat);
    }
}

/// Decide `is_dec_char`.
pub fn dec_char(c: char) -> (r: bool)
    ensures
        r == is_dec_char(c),
{
    '0' <= c && c <= '9'
}

/// Parse `v[from..to]` as a decimal group whose value fits in `u64`.
///
/// Fails on anything but one or more digits, or on a value above `bound`.
pub fn parse_dec(v: &Vec<char>, from: usize, to: usize, bound: u64) -> (r: Option<u64>)
    requires
        from <= to <= v@.len(),
    ensures
        match r {
            Some(n) => {
                &&& to - from >= 1
                &&& all_dec(v@.subrange(from as int, to as int))
                &&& n == dec_group_val(v@.subrange(from as int, to as int))
                &&& n <= bound
            },
            None => !(to - from >= 1 && all_dec(v@.subrange(from as int, to as int))
                && dec_group_val(v@.subrange(from as int, to as int)) <= bound),
        },
{
    let ghost g = v@.subrange(from as int, to as int);
    if to - from < 1 {
        return None;
    }
    let mut acc: u64 = 0;
    let mut i: usize = from;
    proof {
        assert(g.subrange(0, 0) =~= Seq::<char>::empty());
    }
    while i < to
        invariant
            from <= i <= to <= v@.len(),
            g == v@.subrange(from as int, to as int),
            all_dec(g.subrange(0, i - from)),
            acc == dec_group_val(g.subrange(0, i - from)),
            acc <= bound,
            bound <= u64::MAX,
        decreases to - i,
    {
        let c = v[i];
        proof {
            assert(g[i - from] == c);
        }
        if !dec_char(c) {
            proof {
                lemma_dec_prefix_invalid(g, (i - from) as int);
            }
            return None;
        }
        let d: u64 = (c as u32 - 48) as u64;
        proof {
            assert(d == dec_val(c));
        }
        if acc > (u64::MAX - d) / 10 {
            proof {
                let k = (i + 1 - from) as int;
                assert(g.subrange(0, k).drop_last() =~= g.subrange(0, k - 1));
                assert(g.subrange(0, k).last() == c);
                lemma_dec_prefix_lower(g, k);
                assert(acc * 10 + d > u64::MAX) by (nonlinear_arith)
                    requires
                        acc > (u64::MAX - d) / 10,
                        d < 10,
                ;
            }
            return None;
        }
        acc = acc * 10 + d;
        proof {
            let k = (i + 1 - from) as int;
            assert(g.subrange(0, k).drop_last() =~= g.subrange(0, k - 1));
            assert(g.subrange(0, k).last() == c);
        }
        if acc > bound {
            proof {
                lemma_dec_prefix_lower(g, (i + 1 - from) as int);
            }
            return None;
        }
        i = i + 1;
    }
    proof {
        assert(g.subrange(0, to - from) =~= g);
    }
    Some(acc)
}

/// A non-digit anywhere spoils the whole group.
proof fn lemma_dec_prefix_invalid(g: Seq<char>, k: int)
    requires
        0 <= k < g.len(),
        !is_dec_char(g[k]),
    ensures
        !all_dec(g),
{
}

/// The value of a group is at least the value of any prefix.
proof fn lemma_dec_prefix_lower(g: Seq<char>, k: int)
    requires
        0 <= k <= g.len(),
    ensures
        dec_group_val(g) >= dec_group_val(g.subrange(0, k)),
{
    let a = g.subrange(0, k);
    let b = g.subrange(k, g.len() as int);
    assert(g =~= a + b);
    lemma_dec_group_val_concat(a, b);
    lemma_pow10_pos(b.len());
    assert(dec_group_val(a) * pow10(b.len()) >= dec_group_val(a)) by (nonlinear_arith)
        requires
            pow10(b.len()) >= 1,
    ;
}

// ---------------------------------------------------------------------------
// Splitting on a separator.
// ---------------------------------------------------------------------------
/// Split `s` on every occurrence of `c`; an empty input gives one empty group.
pub open spec fn split_on(s: Seq<char>, c: char) -> Seq<Seq<char>>
    decreases s.len(),
{
    if s.len() == 0 {
        seq![Seq::empty()]
    } else if s[0] == c {
        seq![Seq::<char>::empty()] + split_on(s.drop_first(), c)
    } else {
        let r = split_on(s.drop_first(), c);
        seq![seq![s[0]] + r[0]] + r.drop_first()
    }
}

pub proof fn lemma_split_nonempty(s: Seq<char>, c: char)
    ensures
        split_on(s, c).len() >= 1,
    decreases s.len(),
{
    if s.len() > 0 && s[0] != c {
        lemma_split_nonempty(s.drop_first(), c);
    }
}

/// A separator-free string is a single group.
pub proof fn lemma_split_no_sep(s: Seq<char>, c: char)
    requires
        forall|i: int| 0 <= i < s.len() ==> s[i] != c,
    ensures
        split_on(s, c) == seq![s],
    decreases s.len(),
{
    if s.len() == 0 {
        assert(split_on(s, c) =~~= seq![s]);
    } else {
        lemma_split_no_sep(s.drop_first(), c);
        let r = split_on(s.drop_first(), c);
        assert(r == seq![s.drop_first()]);
        assert(seq![s[0]] + r[0] =~= s);
        assert(r.drop_first() =~= Seq::<Seq<char>>::empty());
        assert(split_on(s, c) =~~= seq![s]);
    }
}

/// Splitting at the first separator peels off the first group.
pub proof fn lemma_split_sep_concat(a: Seq<char>, b: Seq<char>, c: char)
    requires
        forall|i: int| 0 <= i < a.len() ==> a[i] != c,
    ensures
        split_on(a + seq![c] + b, c) == seq![a] + split_on(b, c),
    decreases a.len(),
{
    let s = a + seq![c] + b;
    if a.len() == 0 {
        assert(s[0] == c);
        assert(s.drop_first() =~= b);
        assert(split_on(s, c) =~~= seq![a] + split_on(b, c));
    } else {
        assert(s[0] == a[0]);
        assert(s[0] != c);
        assert(s.drop_first() =~= a.drop_first() + seq![c] + b);
        lemma_split_sep_concat(a.drop_first(), b, c);
        let r = split_on(s.drop_first(), c);
        assert(r == seq![a.drop_first()] + split_on(b, c));
        lemma_split_nonempty(b, c);
        assert(r[0] == a.drop_first());
        assert(seq![s[0]] + r[0] =~= a);
        assert(r.drop_first() =~= split_on(b, c));
        assert(split_on(s, c) =~~= seq![a] + split_on(b, c));
    }
}

/// The views of a sequence of character vectors.
pub open spec fn group_views(gs: Seq<Vec<char>>) -> Seq<Seq<char>> {
    Seq::new(gs.len(), |i: int| gs[i]@)
}

/// Replace the first group of `ss` with `p` prepended to it.
spec fn prepend_first(p: Seq<char>, ss: Seq<Seq<char>>) -> Seq<Seq<char>> {
    seq![p + ss[0]] + ss.drop_first()
}

/// Split `v[from..to]` into groups at every `sep`.
pub fn split_groups(v: &Vec<char>, from: usize, to: usize, sep: char) -> (r: Vec<Vec<char>>)
    requires
        from <= to <= v@.len(),
    ensures
        group_views(r@) == split_on(v@.subrange(from as int, to as int), sep),
{
    let ghost t = v@.subrange(from as int, to as int);
    let mut groups: Vec<Vec<char>> = Vec::new();
    let mut cur: Vec<char> = Vec::new();
    let mut i: usize = from;
    proof {
        assert(t.subrange(0, t.len() as int) =~= t);
        assert(group_views(groups@) =~~= Seq::<Seq<char>>::empty());
    }
    while i < to
        invariant
            from <= i <= to <= v@.len(),
            t == v@.subrange(from as int, to as int),
            split_on(t, sep) == group_views(groups@) + prepend_first(
                cur@,
                split_on(t.subrange(i - from, t.len() as int), sep),
            ),
        decreases to - i,
    {
        let ghost rest = t.subrange(i - from, t.len() as int);
        let ghost rest2 = t.subrange(i + 1 - from, t.len() as int);
        proof {
            assert(rest[0] == v@[i as int]);
            assert(rest.drop_first() =~= rest2);
            lemma_split_nonempty(rest2, sep);
        }
        let c = v[i];
        if c == sep {
            proof {
                assert(split_on(rest, sep) == seq![Seq::<char>::empty()] + split_on(rest2, sep));
                assert(prepend_first(cur@, split_on(rest, sep)) =~~= seq![cur@] + split_on(
                    rest2,
                    sep,
                ));
            }
            groups.push(cur);
            cur = Vec::new();
            proof {
                assert(group_views(groups@) =~~= group_views(groups@.drop_last()) + seq![
                    groups@.last()@,
                ]);
                assert(prepend_first(cur@, split_on(rest2, sep)) =~~= split_on(rest2, sep)) by {
                    assert(cur@ + split_on(rest2, sep)[0] =~= split_on(rest2, sep)[0]);
                    assert(seq![split_on(rest2, sep)[0]] + split_on(rest2, sep).drop_first() =~~=
                        split_on(rest2, sep));
                }
            }
        } else {
            proof {
                let r = split_on(rest2, sep);
                assert(split_on(rest, sep) == seq![seq![rest[0]] + r[0]] + r.drop_first());
                assert(cur@ + (seq![c] + r[0]) =~= cur@.push(c) + r[0]);
                assert(prepend_first(cur@, split_on(rest, sep)) =~~= prepend_first(
                    cur@.push(c),
                    r,
                )) by {
                    assert(prepend_first(cur@, split_on(rest, sep))[0] =~= prepend_first(
                        cur@.push(c),
                        r,
                    )[0]);
                    assert(prepend_first(cur@, split_on(rest, sep)).drop_first() =~~= r.drop_first());
                    assert(prepend_first(cur@.push(c), r).drop_first() =~~= r.drop_first());
                }
            }
            cur.push(c);
        }
        i = i + 1;
    }
    proof {
        let rest = t.subrange(to - from, t.len() as int);
        assert(rest =~= Seq::<char>::empty());
        assert(split_on(rest, sep) == seq![Seq::<char>::empty()]);
        assert(prepend_first(cur@, split_on(rest, sep)) =~~= seq![cur@]) by {
            assert(cur@ + Seq::<char>::empty() =~= cur@);
            assert(seq![Seq::<char>::empty()].drop_first() =~~= Seq::<Seq<char>>::empty());
        }
    }
    groups.push(cur);
    proof {
        assert(group_views(groups@) =~~= group_views(groups@.drop_last()) + seq![groups@.last()@]);
        assert(group_views(groups@) =~~= split_on(t, sep));
    }
    groups
}

// ---------------------------------------------------------------------------
// Trimming.
// ---------------------------------------------------------------------------
/// Drop leading ASCII whitespace.
pub open spec fn trim_start_ws(s: Seq<char>) -> Seq<char>
    decreases s.len(),
{
    if s.len() > 0 && is_ascii_ws(s[0]) {
        trim_start_ws(s.drop_first())
    } else {
        s
    }
}

/// Drop trailing ASCII whitespace.
pub open spec fn trim_end_ws(s: Seq<char>) -> Seq<char>
    decreases s.len(),
{
    if s.len() > 0 && is_ascii_ws(s.last()) {
        trim_end_ws(s.drop_last())
    } else {
        s
    }
}

/// Drop ASCII whitespace from both ends.
pub open spec fn trim_ws(s: Seq<char>) -> Seq<char> {
    trim_end_ws(trim_start_ws(s))
}

/// Is the character at `i` ASCII whitespace?
fn ascii_ws_at(v: &Vec<char>, i: usize) -> (r: bool)
    requires
        i < v@.len(),
    ensures
        r == is_ascii_ws(v@[i as int]),
{
    ascii_ws(v[i])
}

/// The bounds of `v` with ASCII whitespace trimmed from both ends.
pub fn trim_range(v: &Vec<char>) -> (r: (usize, usize))
    ensures
        r.0 <= r.1 <= v@.len(),
        v@.subrange(r.0 as int, r.1 as int) == trim_ws(v@),
{
    let len = v.len();
    let mut start: usize = 0;
    let mut end: usize = len;
    proof {
        assert(v@.subrange(0, len as int) =~= v@);
    }
    while start < end && ascii_ws_at(v, start)
        invariant
            start <= end <= len == v@.len(),
            trim_start_ws(v@) == trim_start_ws(v@.subrange(start as int, len as int)),
        decreases end - start,
    {
        proof {
            let s = v@.subrange(start as int, len as int);
            assert(s[0] == v@[start as int]);
            assert(s.drop_first() =~= v@.subrange(start + 1, len as int));
        }
        start = start + 1;
    }
    proof {
        let s = v@.subrange(start as int, len as int);
        if start < end {
            assert(s[0] == v@[start as int]);
        }
        assert(trim_start_ws(s) == s);
        assert(trim_start_ws(v@) == v@.subrange(start as int, len as int));
    }
    while end > start && ascii_ws_at(v, end - 1)
        invariant
            start <= end <= len == v@.len(),
            trim_start_ws(v@) == v@.subrange(start as int, len as int),
            trim_end_ws(trim_start_ws(v@)) == trim_end_ws(v@.subrange(start as int, end as int)),
        decreases end,
    {
        proof {
            let s = v@.subrange(start as int, end as int);
            assert(s.last() == v@[end - 1]);
            assert(s.drop_last() =~= v@.subrange(start as int, end - 1));
        }
        end = end - 1;
    }
    proof {
        let s = v@.subrange(start as int, end as int);
        if end > start {
            assert(s.last() == v@[end - 1]);
        }
        assert(trim_end_ws(s) == s);
    }
    (start, end)
}

/// Drop leading whitespace/control characters.
pub open spec fn trim_start_ctl(s: Seq<char>) -> Seq<char>
    decreases s.len(),
{
    if s.len() > 0 && is_ws_or_control(s[0]) {
        trim_start_ctl(s.drop_first())
    } else {
        s
    }
}

/// Drop trailing whitespace/control characters.
pub open spec fn trim_end_ctl(s: Seq<char>) -> Seq<char>
    decreases s.len(),
{
    if s.len() > 0 && is_ws_or_control(s.last()) {
        trim_end_ctl(s.drop_last())
    } else {
        s
    }
}

/// Drop whitespace/control characters from both ends.
pub open spec fn trim_ctl(s: Seq<char>) -> Seq<char> {
    trim_end_ctl(trim_start_ctl(s))
}

/// Is the character at `i` whitespace or a control character?
fn ctl_at(v: &Vec<char>, i: usize) -> (r: bool)
    requires
        i < v@.len(),
    ensures
        r == is_ws_or_control(v@[i as int]),
{
    ws_or_control(v[i])
}

/// The bounds of `v[from..to]` with whitespace/control characters trimmed
/// from both ends.
pub fn trim_ctl_range(v: &Vec<char>, from: usize, to: usize) -> (r: (usize, usize))
    requires
        from <= to <= v@.len(),
    ensures
        from <= r.0 <= r.1 <= to,
        v@.subrange(r.0 as int, r.1 as int) == trim_ctl(v@.subrange(from as int, to as int)),
{
    let ghost whole = v@.subrange(from as int, to as int);
    let mut start: usize = from;
    let mut end: usize = to;
    while start < end && ctl_at(v, start)
        invariant
            from <= start <= end <= to <= v@.len(),
            whole == v@.subrange(from as int, to as int),
            trim_start_ctl(whole) == trim_start_ctl(v@.subrange(start as int, to as int)),
        decreases end - start,
    {
        proof {
            let s = v@.subrange(start as int, to as int);
            assert(s[0] == v@[start as int]);
            assert(s.drop_first() =~= v@.subrange(start + 1, to as int));
        }
        start = start + 1;
    }
    proof {
        let s = v@.subrange(start as int, to as int);
        if start < end {
            assert(s[0] == v@[start as int]);
        }
        assert(trim_start_ctl(s) == s);
    }
    while end > start && ctl_at(v, end - 1)
        invariant
            from <= start <= end <= to <= v@.len(),
            whole == v@.subrange(from as int, to as int),
            trim_start_ctl(whole) == v@.subrange(start as int, to as int),
            trim_end_ctl(trim_start_ctl(whole)) == trim_end_ctl(
                v@.subrange(start as int, end as int),
            ),
        decreases end,
    {
        proof {
            let s = v@.subrange(start as int, end as int);
            assert(s.last() == v@[end - 1]);
            assert(s.drop_last() =~= v@.subrange(start as int, end - 1));
        }
        end = end - 1;
    }
    proof {
        let s = v@.subrange(start as int, end as int);
        if end > start {
            assert(s.last() == v@[end - 1]);
        }
        assert(trim_end_ctl(s) == s);
    }
    (start, end)
}

/// Copy `v[from..to]` into a fresh string.
pub fn chars_to_string(v: &Vec<char>, from: usize, to: usize) -> (r: String)
    requires
        from <= to <= v@.len(),
    ensures
        r@ == v@.subrange(from as int, to as int),
{
    let mut out = String::new();
    let mut i: usize = from;
    proof {
        assert(out@ =~= v@.subrange(from as int, from as int));
    }
    while i < to
        invariant
            from <= i <= to <= v@.len(),
            out@ == v@.subrange(from as int, i as int),
        decreases to - i,
    {
        push_char(&mut out, v[i]);
        proof {
            assert(out@ =~= v@.subrange(from as int, i + 1));
        }
        i = i + 1;
    }
    out
}

/// Drop leading Unicode whitespace.
pub open spec fn trim_start_white(s: Seq<char>) -> Seq<char>
    decreases s.len(),
{
    if s.len() > 0 && is_white(s[0]) {
        trim_start_white(s.drop_first())
    } else {
        s
    }
}

/// Drop trailing Unicode whitespace.
pub open spec fn trim_end_white(s: Seq<char>) -> Seq<char>
    decreases s.len(),
{
    if s.len() > 0 && is_white(s.last()) {
        trim_end_white(s.drop_last())
    } else {
        s
    }
}

/// Drop Unicode whitespace from both ends.
pub open spec fn trim_white(s: Seq<char>) -> Seq<char> {
    trim_end_white(trim_start_white(s))
}

/// Is the character at `i` Unicode whitespace?
fn white_at(v: &Vec<char>, i: usize) -> (r: bool)
    requires
        i < v@.len(),
    ensures
        r == is_white(v@[i as int]),
{
    white(v[i])
}

/// The bounds of `v[from..to]` with Unicode whitespace trimmed from both
/// ends.
pub fn trim_white_range(v: &Vec<char>, from: usize, to: usize) -> (r: (usize, usize))
    requires
        from <= to <= v@.len(),
    ensures
        from <= r.0 <= r.1 <= to,
        v@.subrange(r.0 as int, r.1 as int) == trim_white(v@.subrange(from as int, to as int)),
{
    let ghost whole = v@.subrange(from as int, to as int);
    let mut start: usize = from;
    let mut end: usize = to;
    while start < end && white_at(v, start)
        invariant
            from <= start <= end <= to <= v@.len(),
            whole == v@.subrange(from as int, to as int),
            trim_start_white(whole) == trim_start_white(v@.subrange(start as int, to as int)),
        decreases end - start,
    {
        proof {
            let s = v@.subrange(start as int, to as int);
            assert(s[0] == v@[start as int]);
            assert(s.drop_first() =~= v@.subrange(start + 1, to as int));
        }
        start = start + 1;
    }
    proof {
        let s = v@.subrange(start as int, to as int);
        if start < end {
            assert(s[0] == v@[start as int]);
        }
        assert(trim_start_white(s) == s);
    }
    while end > start && white_at(v, end - 1)
        invariant
            from <= start <= end <= to <= v@.len(),
            whole == v@.subrange(from as int, to as int),
            trim_start_white(whole) == v@.subrange(start as int, to as int),
            trim_end_white(trim_start_white(whole)) == trim_end_white(
                v@.subrange(start as int, end as int),
            ),
        decreases end,
    {
        proof {
            let s = v@.subrange(start as int, end as int);
            assert(s.last() == v@[end - 1]);
            assert(s.drop_last() =~= v@.subrange(start as int, end - 1));
        }
        end = end - 1;
    }
    proof {
        let s = v@.subrange(start as int, end as int);
        if end > start {
            assert(s.last() == v@[end - 1]);
        }
        assert(trim_end_white(s) == s);
    }
    (start, end)
}

// ---------------------------------------------------------------------------
// Searching.
// ---------------------------------------------------------------------------
/// The first occurrence of `c` in `s` at or past `j`, or -1.
pub open spec fn find_char_from(s: Seq<char>, c: char, j: int) -> int
    decreases s.len() - j,
{
    if j < 0 || j >= s.len() {
        -1
    } else if s[j] == c {
        j
    } else {
        find_char_from(s, c, j + 1)
    }
}

/// The first occurrence of `pat` in `s` at or past `j`, or -1.
pub open spec fn find_sub_from(s: Seq<char>, pat: Seq<char>, j: int) -> int
    decreases s.len() - j,
{
    if j < 0 || pat.len() == 0 || j + pat.len() > s.len() {
        -1
    } else if s.subrange(j, j + pat.len()) == pat {
        j
    } else {
        find_sub_from(s, pat, j + 1)
    }
}

/// Find the first occurrence of `c` in `v[from..to]`, as an offset from
/// `from`; matches [`find_char_from`] over the subrange.
pub fn find_char_range(v: &Vec<char>, from: usize, to: usize, c: char) -> (r: Option<usize>)
    requires
        from <= to <= v@.len(),
    ensures
        match r {
            Some(k) => k < to - from && find_char_from(
                v@.subrange(from as int, to as int),
                c,
                0,
            ) == k,
            None => find_char_from(v@.subrange(from as int, to as int), c, 0) == -1,
        },
{
    let ghost s = v@.subrange(from as int, to as int);
    let mut j: usize = from;
    while j < to
        invariant
            from <= j <= to <= v@.len(),
            s == v@.subrange(from as int, to as int),
            find_char_from(s, c, 0) == find_char_from(s, c, j - from),
        decreases to - j,
    {
        proof {
            assert(s[j - from] == v@[j as int]);
        }
        if v[j] == c {
            return Some(j - from);
        }
        j = j + 1;
    }
    None
}

/// Find the first occurrence of `pat` in `v[from..to]`, as an offset from
/// `from`; matches [`find_sub_from`] over the subrange.
pub fn find_sub_range(v: &Vec<char>, from: usize, to: usize, pat: &Vec<char>) -> (r: Option<usize>)
    requires
        from <= to <= v@.len(),
        pat@.len() >= 1,
    ensures
        match r {
            Some(k) => k + pat@.len() <= to - from && find_sub_from(
                v@.subrange(from as int, to as int),
                pat@,
                0,
            ) == k,
            None => find_sub_from(v@.subrange(from as int, to as int), pat@, 0) == -1,
        },
{
    let ghost s = v@.subrange(from as int, to as int);
    let plen = pat.len();
    if plen > to - from {
        return None;
    }
    let last = to - plen;
    let mut j: usize = from;
    while j <= last
        invariant
            from <= j <= last + 1,
            last == to - plen,
            from <= to <= v@.len(),
            plen == pat@.len() >= 1,
            plen <= to - from,
            s == v@.subrange(from as int, to as int),
            find_sub_from(s, pat@, 0) == find_sub_from(s, pat@, j - from),
        decreases last + 1 - j,
    {
        let mut q: usize = 0;
        let mut matched: bool = true;
        while q < plen
            invariant
                q <= plen,
                from <= j <= last,
                last == to - plen,
                to <= v@.len(),
                plen == pat@.len(),
                s == v@.subrange(from as int, to as int),
                matched == (forall|x: int| 0 <= x < q ==> #[trigger] s[j - from + x] == pat@[x]),
            decreases plen - q,
        {
            proof {
                assert(s[j - from + q] == v@[j + q]);
            }
            matched = matched && v[j + q] == pat[q];
            q = q + 1;
        }
        if matched {
            proof {
                assert forall|x: int| 0 <= x < plen implies s.subrange(
                    j - from,
                    j - from + plen,
                )[x] == pat@[x] by {
                    assert(s[j - from + x] == pat@[x]);
                }
                assert(s.subrange(j - from, j - from + plen) =~= pat@);
            }
            return Some(j - from);
        }
        proof {
            let a = j - from;
            if s.subrange(a, a + plen) == pat@ {
                assert(forall|x: int|
                    0 <= x < plen ==> #[trigger] s.subrange(a, a + plen)[x] == pat@[x]);
                assert(forall|x: int| 0 <= x < plen ==> #[trigger] s[a + x] == pat@[x]);
            }
        }
        j = j + 1;
    }
    proof {
        assert(find_sub_from(s, pat@, j - from) == -1);
    }
    None
}

// ---------------------------------------------------------------------------
// Whitespace-separated tokens.
// ---------------------------------------------------------------------------
/// The first ASCII whitespace at or past `j`, or the end of `s`.
pub open spec fn ws_from(s: Seq<char>, j: int) -> int
    decreases s.len() - j,
{
    if j < 0 || j >= s.len() {
        s.len() as int
    } else if is_ascii_ws(s[j]) {
        j
    } else {
        ws_from(s, j + 1)
    }
}

/// The maximal runs of non-whitespace characters at or past `j`.
pub open spec fn tokens_from(s: Seq<char>, j: int) -> Seq<Seq<char>>
    decreases s.len() - j,
{
    if j < 0 || j >= s.len() {
        Seq::empty()
    } else if is_ascii_ws(s[j]) {
        tokens_from(s, j + 1)
    } else {
        let e = ws_from(s, j + 1);
        let e2 = if j < e && e <= s.len() {
            e
        } else {
            j + 1
        };
        seq![s.subrange(j, e2)] + tokens_from(s, e2)
    }
}

/// The end of a token never falls before its start.
pub proof fn lemma_ws_from_bounds(s: Seq<char>, j: int)
    requires
        0 <= j <= s.len(),
    ensures
        j <= ws_from(s, j) <= s.len(),
    decreases s.len() - j,
{
    if j < s.len() && !is_ascii_ws(s[j]) {
        lemma_ws_from_bounds(s, j + 1);
    }
}

} // verus!
