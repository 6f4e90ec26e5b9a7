//! Byte-level building blocks shared by the wire codecs: decimal text
//! rendering and parsing, and little-endian fixed-width integers.

use vstd::prelude::*;
use vstd::arithmetic::div_mod::lemma_fundamental_div_mod;

verus! {

/// A decimal digit byte (`'0'..='9'`).
pub open spec fn is_digit(b: u8) -> bool {
    48 <= b && b <= 57
}

pub open spec fn all_digits(s: Seq<u8>) -> bool {
    forall|i: int| 0 <= i < s.len() ==> is_digit(s[i])
}

/// Value of a sequence of decimal digit bytes, most significant first.
pub open spec fn digits_val(s: Seq<u8>) -> nat
    decreases s.len(),
{
    if s.len() == 0 {
        0
    } else {
        (digits_val(s.drop_last()) * 10 + (s.last() - 48)) as nat
    }
}

/// Canonical decimal rendering of a natural number.
pub open spec fn dec_rep_nat(n: nat) -> Seq<u8>
    decreases n,
{
    if n < 10 {
        seq![(48 + n) as u8]
    } else {
        dec_rep_nat(n / 10).push((48 + n % 10) as u8)
    }
}

/// Canonical decimal rendering of an integer, with a leading `-` when negative.
pub open spec fn dec_rep_int(i: int) -> Seq<u8> {
    if i < 0 {
        seq![45u8] + dec_rep_nat((-i) as nat)
    } else {
        dec_rep_nat(i as nat)
    }
}

pub proof fn lemma_dec_rep_nat(n: nat)
    ensures
        dec_rep_nat(n).len() >= 1,
        all_digits(dec_rep_nat(n)),
        digits_val(dec_rep_nat(n)) == n,
    decreases n,
{
    if n < 10 {
        let s0 = seq![(48 + n) as u8];
        assert(dec_rep_nat(n) == s0);
        assert(s0.drop_last() =~= Seq::<u8>::empty());
        assert(digits_val(Seq::<u8>::empty()) == 0);
        assert(s0.last() == (48 + n) as u8);
        assert(((48 + n) as u8) as int == 48 + n);
        assert(digits_val(s0) == (digits_val(s0.drop_last()) * 10 + (s0.last() - 48)) as nat);
        assert(digits_val(dec_rep_nat(n)) == n);
    } else {
        lemma_dec_rep_nat(n / 10);
        let r = dec_rep_nat(n);
        assert(r == dec_rep_nat(n / 10).push((48 + n % 10) as u8));
        assert(r.drop_last() =~= dec_rep_nat(n / 10));
        assert(r.last() == (48 + n % 10) as u8);
        lemma_fundamental_div_mod(n as int, 10);
        assert(digits_val(r) == (n / 10) * 10 + n % 10);
    }
}

/// A signed decimal line as `str::parse` accepts it: an optional `+` or `-`
/// sign followed by at least one digit, and nothing else.
pub open spec fn int_line_wf(s: Seq<u8>) -> bool {
    if s.len() == 0 {
        false
    } else if s[0] == 43 || s[0] == 45 {
        s.len() >= 2 && all_digits(s.skip(1))
    } else {
        all_digits(s)
    }
}

pub open spec fn int_line_neg(s: Seq<u8>) -> bool {
    s.len() > 0 && s[0] == 45
}

pub open spec fn int_line_mag(s: Seq<u8>) -> nat {
    if s.len() > 0 && (s[0] == 43 || s[0] == 45) {
        digits_val(s.skip(1))
    } else {
        digits_val(s)
    }
}

pub open spec fn int_line_val(s: Seq<u8>) -> int {
    if int_line_neg(s) {
        -(int_line_mag(s) as int)
    } else {
        int_line_mag(s) as int
    }
}

pub proof fn lemma_int_line_of_dec_rep(i: int)
    ensures
        int_line_wf(dec_rep_int(i)),
        int_line_neg(dec_rep_int(i)) == (i < 0),
        int_line_val(dec_rep_int(i)) == i,
{
    if i < 0 {
        lemma_dec_rep_nat((-i) as nat);
        let r = dec_rep_int(i);
        assert(r[0] == 45);
        assert(r.skip(1) =~= dec_rep_nat((-i) as nat));
    } else {
        lemma_dec_rep_nat(i as nat);
        let r = dec_rep_int(i);
        assert(is_digit(r[0]));
    }
}

/// Magnitudes above this pin are reported only as "too large": `2^64`.
pub open spec fn spec_mag_pin() -> nat {
    0x10000000000000000
}

/// Parse a decimal line. Returns `(wf, neg, mag)`: whether the line is a
/// well-formed signed decimal, its sign, and its magnitude, where a
/// magnitude above `2^64` is reported as any value above the pin (all
/// integer bounds of interest lie below it).
#[verifier::loop_isolation(false)]
pub fn parse_int_line(s: &Vec<u8>) -> (r: (bool, bool, u128))
    ensures
        r.0 == int_line_wf(s@),
        r.0 ==> r.1 == int_line_neg(s@),
        r.0 && int_line_mag(s@) <= spec_mag_pin() ==> r.2 == int_line_mag(s@),
        r.0 && int_line_mag(s@) > spec_mag_pin() ==> r.2 > spec_mag_pin(),
{
    if s.len() == 0 {
        return (false, false, 0);
    }
    let first = s[0];
    let neg = first == 45;
    let start: usize = if first == 43 || first == 45 {
        1
    } else {
        0
    };
    if s.len() == start {
        return (false, false, 0);
    }
    let ghost digits: Seq<u8> = if start == 1 {
        s@.skip(1)
    } else {
        s@
    };
    let mut i: usize = start;
    let mut acc: u128 = 0;
    let pin: u128 = 0x10000000000000000;
    while i < s.len()
        invariant
            start <= i <= s@.len(),
            start == 0 || start == 1,
            s@.len() > start,
            digits == (if start == 1 { s@.skip(1) } else { s@ }),
            all_digits(digits.subrange(0, i - start)),
            digits_val(digits.subrange(0, i - start)) <= spec_mag_pin() ==> acc == digits_val(
                digits.subrange(0, i - start),
            ),
            digits_val(digits.subrange(0, i - start)) > spec_mag_pin() ==> acc > spec_mag_pin(),
            acc <= 0xA0000000000000009,
        decreases s@.len() - i,
    {
        let b = s[i];
        if b < 48 || b > 57 {
            proof {
                assert(!is_digit(digits[i - start]));
                assert(!all_digits(digits));
                assert(!int_line_wf(s@)) by {
                    if start == 1 {
                        assert(digits =~= s@.skip(1));
                    }
                }
            }
            return (false, false, 0);
        }
        let d = (b - 48) as u128;
        let ghost pre = digits.subrange(0, i - start);
        let ghost cur = digits.subrange(0, i + 1 - start);
        proof {
            assert(cur.drop_last() =~= pre);
            assert(cur.last() == s@[i as int]);
            assert(digits_val(cur) == (digits_val(pre) * 10 + (b - 48)) as nat);
            assert(all_digits(cur)) by {
                assert(forall|j: int| 0 <= j < cur.len() - 1 ==> cur[j] == pre[j]);
            }
        }
        if acc <= pin {
            acc = acc * 10 + d;
            proof {
                assert(digits_val(pre) <= spec_mag_pin());
                assert(acc == digits_val(cur));
            }
        } else {
            proof {
                assert(digits_val(pre) > spec_mag_pin());
                assert(digits_val(cur) >= digits_val(pre) * 10);
                assert(digits_val(pre) * 10 >= digits_val(pre));
            }
        }
        i = i + 1;
    }
    proof {
        assert(digits.subrange(0, s@.len() - start) =~= digits);
    }
    (true, neg, acc)
}

/// Append the decimal rendering of `n` to `out`.
pub fn render_dec(n: u128, out: &mut Vec<u8>)
    ensures
        final(out)@ == old(out)@ + dec_rep_nat(n as nat),
    decreases n,
{
    if n < 10 {
        out.push((48 + n) as u8);
        proof {
            assert(out@ =~= old(out)@ + dec_rep_nat(n as nat));
        }
    } else {
        render_dec(n / 10, out);
        out.push((48 + n % 10) as u8);
        proof {
            assert(out@ =~= old(out)@ + dec_rep_nat(n as nat));
        }
    }
}

// ---------------------------------------------------------------------------
// Little-endian fixed-width integers.
// ---------------------------------------------------------------------------

pub open spec fn pow256(k: nat) -> nat
    decreases k,
{
    if k == 0 {
        1
    } else {
        256 * pow256((k - 1) as nat)
    }
}

/// The `k` little-endian bytes of `n`.
pub open spec fn le_bytes(n: nat, k: nat) -> Seq<u8>
    decreases k,
{
    if k == 0 {
        Seq::empty()
    } else {
        seq![(n % 256) as u8] + le_bytes(n / 256, (k - 1) as nat)
    }
}

/// The value of a little-endian byte sequence.
pub open spec fn le_val(s: Seq<u8>) -> nat
    decreases s.len(),
{
    if s.len() == 0 {
        0
    } else {
        (s[0] + 256 * le_val(s.skip(1))) as nat
    }
}

pub proof fn lemma_pow256_pos(k: nat)
    ensures
        pow256(k) >= 1,
    decreases k,
{
    if k > 0 {
        lemma_pow256_pos((k - 1) as nat);
    }
}

pub proof fn lemma_pow256_mono(j: nat, k: nat)
    requires
        j <= k,
    ensures
        pow256(j) <= pow256(k),
        pow256(j) >= 1,
    decreases k,
{
    lemma_pow256_pos(j);
    if j < k {
        lemma_pow256_mono(j, (k - 1) as nat);
    }
}

pub proof fn lemma_le_bytes_len(n: nat, k: nat)
    ensures
        le_bytes(n, k).len() == k,
    decreases k,
{
    if k > 0 {
        lemma_le_bytes_len(n / 256, (k - 1) as nat);
    }
}

pub proof fn lemma_le_roundtrip(n: nat, k: nat)
    requires
        n < pow256(k),
    ensures
        le_val(le_bytes(n, k)) == n,
    decreases k,
{
    if k == 0 {
    } else {
        assert(n / 256 < pow256((k - 1) as nat)) by {
            if n / 256 >= pow256((k - 1) as nat) {
                lemma_fundamental_div_mod(n as int, 256);
                assert(n >= 256 * (n / 256));
                assert(256 * (n / 256) >= 256 * pow256((k - 1) as nat)) by (nonlinear_arith)
                    requires
                        n / 256 >= pow256((k - 1) as nat),
                ;
            }
        }
        lemma_le_roundtrip(n / 256, (k - 1) as nat);
        let s = le_bytes(n, k);
        assert(s.skip(1) =~= le_bytes(n / 256, (k - 1) as nat));
        lemma_fundamental_div_mod(n as int, 256);
    }
}

pub proof fn lemma_le_val_bound(s: Seq<u8>)
    ensures
        le_val(s) < pow256(s.len() as nat),
    decreases s.len(),
{
    if s.len() > 0 {
        lemma_le_val_bound(s.skip(1));
        assert(le_val(s) == s[0] + 256 * le_val(s.skip(1)));
        assert(256 * le_val(s.skip(1)) <= 256 * (pow256((s.len() - 1) as nat) - 1))
            by (nonlinear_arith)
            requires
                le_val(s.skip(1)) <= pow256((s.len() - 1) as nat) - 1,
        ;
    }
}

/// Append the `k` little-endian bytes of `n` to `out`.
pub fn write_le(n: u128, k: usize, out: &mut Vec<u8>)
    requires
        k <= 16,
    ensures
        final(out)@ == old(out)@ + le_bytes(n as nat, k as nat),
    decreases k,
{
    if k == 0 {
        proof {
            assert(out@ =~= old(out)@ + le_bytes(n as nat, 0));
        }
        return ;
    }
    let ghost pre = out@;
    out.push((n % 256) as u8);
    write_le(n / 256, k - 1, out);
    proof {
        assert(out@ =~= pre + le_bytes(n as nat, k as nat));
    }
}

/// Read `k` little-endian bytes at `start` as an unsigned value.
#[verifier::loop_isolation(false)]
pub fn read_le(s: &Vec<u8>, start: usize, k: usize) -> (r: u128)
    requires
        k <= 16,
        start + k <= s@.len(),
    ensures
        r as nat == le_val(s@.subrange(start as int, start + k)),
{
    let n = s.len();
    let mut i: usize = k;
    let mut acc: u128 = 0;
    proof {
        assert(s@.subrange(start + k, start + k) =~= Seq::<u8>::empty());
    }
    while i > 0
        invariant
            i <= k,
            k <= 16,
            start + k <= n == s@.len(),
            acc as nat == le_val(s@.subrange(start + i, start + k)),
        decreases i,
    {
        let ghost tail = s@.subrange(start + i, start + k);
        proof {
            lemma_le_val_bound(tail);
            lemma_pow256_mono(tail.len() as nat, 15);
            assert(pow256(15) == 0x1000000000000000000000000000000) by {
                reveal_with_fuel(pow256, 16);
            }
        }
        i = i - 1;
        let b = s[start + i];
        acc = (b as u128) + 256 * acc;
        proof {
            let cur = s@.subrange(start + i, start + k);
            assert(cur.skip(1) =~= tail);
            assert(cur[0] == b);
        }
    }
    acc
}

pub proof fn lemma_region_byte(s: Seq<u8>, i: int, e: Seq<u8>, t: int)
    requires
        0 <= i,
        i + e.len() <= s.len(),
        s.subrange(i, i + e.len()) == e,
        0 <= t < e.len(),
    ensures
        s[i + t] == e[t],
{
    assert(e[t] == s.subrange(i, i + e.len())[t]);
}

pub proof fn lemma_sub_region(s: Seq<u8>, i: int, e: Seq<u8>, a: int, b: int)
    requires
        0 <= i,
        i + e.len() <= s.len(),
        s.subrange(i, i + e.len()) == e,
        0 <= a <= b <= e.len(),
    ensures
        s.subrange(i + a, i + b) == e.subrange(a, b),
{
    assert(s.subrange(i + a, i + b) =~= e.subrange(a, b)) by {
        assert(forall|t: int|
            0 <= t < b - a ==> #[trigger] e.subrange(a, b)[t] == s.subrange(i, i + e.len())[a
                + t]);
    }
}

} // verus!
