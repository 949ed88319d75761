//! Decimal arithmetic over digit sequences.
//!
//! The scanner collects raw digit values (each in `0..=9`) into a buffer; the
//! evaluator interprets windows of that buffer as base-10 integers. The spec
//! functions here give those windows their mathematical meaning, and the
//! lemmas relate concatenation, splitting, leading zeros and division so the
//! evaluator's repartitioning of digit windows can be proved exact.

use vstd::prelude::*;
use vstd::arithmetic::div_mod::lemma_fundamental_div_mod_converse;
use vstd::arithmetic::mul::lemma_mul_inequality;

verus! {

/// 10 to the power of `e`.
pub open spec fn pow10(e: nat) -> nat
    decreases e,
{
    if e == 0 {
        1
    } else {
        10 * pow10((e - 1) as nat)
    }
}

/// Every element of `s` is a raw decimal digit value.
pub open spec fn all_digits(s: Seq<u8>) -> bool {
    forall|i: int| 0 <= i < s.len() ==> s[i] < 10
}

/// The base-10 integer denoted by the digit sequence `s` (most significant
/// digit first, the empty sequence denoting zero).
pub open spec fn seq_val(s: Seq<u8>) -> nat
    decreases s.len(),
{
    if s.len() == 0 {
        0
    } else {
        (seq_val(s.drop_last()) * 10 + s.last()) as nat
    }
}

/// A run of `n` zero digits.
pub open spec fn zeros(n: nat) -> Seq<u8> {
    Seq::new(n, |i: int| 0u8)
}

/// `s` with its leading zero digits removed.
pub open spec fn strip_zeros(s: Seq<u8>) -> Seq<u8>
    decreases s.len(),
{
    if s.len() > 0 && s[0] == 0 {
        strip_zeros(s.skip(1))
    } else {
        s
    }
}

/// The raw digit values of a sequence of ASCII digit bytes.
pub open spec fn digit_vals(s: Seq<u8>) -> Seq<u8> {
    s.map_values(|b: u8| (b - 48) as u8)
}

pub proof fn lemma_pow10_pos(e: nat)
    ensures
        pow10(e) >= 1,
    decreases e,
{
    if e > 0 {
        lemma_pow10_pos((e - 1) as nat);
    }
}

pub proof fn lemma_pow10_adds(a: nat, b: nat)
    ensures
        pow10(a + b) == pow10(a) * pow10(b),
    decreases b,
{
    if b == 0 {
        assert(pow10(a + 0) == pow10(a) * 1);
    } else {
        lemma_pow10_adds(a, (b - 1) as nat);
        assert(pow10(a + b) == 10 * pow10((a + b - 1) as nat));
        assert(pow10(a) * pow10(b) == pow10(a) * (10 * pow10((b - 1) as nat)));
        assert(pow10(a) * (10 * pow10((b - 1) as nat)) == 10 * (pow10(a) * pow10(
            (b - 1) as nat,
        ))) by (nonlinear_arith);
    }
}

pub proof fn lemma_pow10_mono(a: nat, b: nat)
    requires
        a <= b,
    ensures
        pow10(a) <= pow10(b),
{
    lemma_pow10_adds(a, (b - a) as nat);
    lemma_pow10_pos((b - a) as nat);
    lemma_mul_inequality(1, pow10((b - a) as nat) as int, pow10(a) as int);
}

/// A digit sequence of length `n` denotes a value below `10^n`.
pub proof fn lemma_seq_val_bound(s: Seq<u8>)
    requires
        all_digits(s),
    ensures
        seq_val(s) < pow10(s.len()),
    decreases s.len(),
{
    if s.len() > 0 {
        assert(all_digits(s.drop_last()));
        lemma_seq_val_bound(s.drop_last());
        lemma_pow10_adds((s.len() - 1) as nat, 1);
        assert(seq_val(s.drop_last()) + 1 <= pow10((s.len() - 1) as nat));
        assert((seq_val(s.drop_last()) + 1) * 10 <= pow10((s.len() - 1) as nat) * 10)
            by (nonlinear_arith)
            requires
                seq_val(s.drop_last()) + 1 <= pow10((s.len() - 1) as nat),
        ;
    }
}

/// Concatenation shifts the left part by the length of the right part.
pub proof fn lemma_seq_val_concat(a: Seq<u8>, b: Seq<u8>)
    ensures
        seq_val(a + b) == seq_val(a) * pow10(b.len()) + seq_val(b),
    decreases b.len(),
{
    if b.len() == 0 {
        assert(a + b =~= a);
        assert(seq_val(b) == 0);
        assert(pow10(0) == 1);
        assert(seq_val(a) * 1 == seq_val(a));
    } else {
        let m = (b.len() - 1) as nat;
        lemma_seq_val_concat(a, b.drop_last());
        assert((a + b).drop_last() =~= a + b.drop_last());
        assert((a + b).last() == b.last());
        assert(seq_val(a + b) == seq_val(a + b.drop_last()) * 10 + b.last());
        lemma_pow10_adds(m, 1);
        assert(pow10(1) == 10) by {
            reveal_with_fuel(pow10, 2);
        }
        assert(pow10(b.len()) == pow10(m) * 10);
        assert((seq_val(a) * pow10(m) + seq_val(b.drop_last())) * 10 == seq_val(a) * (pow10(m)
            * 10) + seq_val(b.drop_last()) * 10) by (nonlinear_arith);
        assert(seq_val(b) == seq_val(b.drop_last()) * 10 + b.last());
        assert(seq_val(a + b) == (seq_val(a) * pow10(m) + seq_val(b.drop_last())) * 10 + b.last());
        assert(seq_val(a) * (pow10(m) * 10) == seq_val(a) * pow10(b.len()));
    }
}

pub proof fn lemma_seq_val_zeros(n: nat)
    ensures
        seq_val(zeros(n)) == 0,
    decreases n,
{
    if n > 0 {
        assert(zeros(n).drop_last() =~= zeros((n - 1) as nat));
        lemma_seq_val_zeros((n - 1) as nat);
    }
}

/// Leading zeros do not change the denoted value.
pub proof fn lemma_seq_val_leading_zeros(z: nat, s: Seq<u8>)
    ensures
        seq_val(zeros(z) + s) == seq_val(s),
{
    lemma_seq_val_concat(zeros(z), s);
    lemma_seq_val_zeros(z);
}

/// Trailing zeros multiply the denoted value by a power of ten.
pub proof fn lemma_seq_val_trailing_zeros(s: Seq<u8>, z: nat)
    ensures
        seq_val(s + zeros(z)) == seq_val(s) * pow10(z),
{
    lemma_seq_val_concat(s, zeros(z));
    lemma_seq_val_zeros(z);
}

/// Splitting at `k`: the value is the prefix value shifted plus the suffix value.
pub proof fn lemma_seq_val_split(s: Seq<u8>, k: int)
    requires
        0 <= k <= s.len(),
    ensures
        seq_val(s) == seq_val(s.take(k)) * pow10((s.len() - k) as nat) + seq_val(s.skip(k)),
{
    assert(s =~= s.take(k) + s.skip(k));
    lemma_seq_val_concat(s.take(k), s.skip(k));
}

/// Integer division by a power of ten drops that many trailing digits.
pub proof fn lemma_seq_val_div(s: Seq<u8>, k: int)
    requires
        all_digits(s),
        0 <= k <= s.len(),
    ensures
        seq_val(s) as int / pow10((s.len() - k) as nat) as int == seq_val(s.take(k)) as int,
        seq_val(s) as int % pow10((s.len() - k) as nat) as int == seq_val(s.skip(k)) as int,
{
    let d = pow10((s.len() - k) as nat) as int;
    lemma_seq_val_split(s, k);
    assert(all_digits(s.skip(k)));
    lemma_seq_val_bound(s.skip(k));
    assert(s.skip(k).len() == s.len() - k);
    lemma_pow10_pos((s.len() - k) as nat);
    lemma_fundamental_div_mod_converse(
        seq_val(s) as int,
        d,
        seq_val(s.take(k)) as int,
        seq_val(s.skip(k)) as int,
    );
}

/// How removing leading zeros behaves when one more digit arrives at the
/// right: a zero extends nothing while everything so far is zero, and any
/// other digit is simply appended.
pub proof fn lemma_strip_zeros_push(s: Seq<u8>, d: u8)
    ensures
        strip_zeros(s.push(d)) == if strip_zeros(s).len() == 0 && d == 0 {
            Seq::<u8>::empty()
        } else {
            strip_zeros(s).push(d)
        },
    decreases s.len(),
{
    let t = s.push(d);
    if s.len() > 0 && s[0] == 0 {
        lemma_strip_zeros_push(s.skip(1), d);
        assert(t[0] == 0 && t.len() > 0);
        assert(strip_zeros(t) == strip_zeros(t.skip(1)));
        assert(t.skip(1) =~= s.skip(1).push(d));
        assert(strip_zeros(s) == strip_zeros(s.skip(1)));
    } else if s.len() == 0 {
        assert(t.len() == 1 && t[0] == d);
        assert(strip_zeros(s) == s);
        if d == 0 {
            assert(strip_zeros(t) == strip_zeros(t.skip(1)));
            assert(t.skip(1) =~= Seq::<u8>::empty());
            assert(strip_zeros(Seq::<u8>::empty()) == Seq::<u8>::empty());
        } else {
            assert(strip_zeros(t) == t);
            assert(t =~= strip_zeros(s).push(d));
        }
    } else {
        // s starts with a nonzero digit
        assert(t[0] == s[0] && t[0] != 0);
        assert(strip_zeros(t) == t);
        assert(strip_zeros(s) == s);
        assert(strip_zeros(s).len() > 0);
        assert(t =~= strip_zeros(s).push(d));
    }
}

/// After removing leading zeros, a nonempty sequence starts with a nonzero
/// digit.
pub proof fn lemma_strip_zeros_head(s: Seq<u8>)
    requires
        strip_zeros(s).len() > 0,
    ensures
        strip_zeros(s)[0] != 0,
    decreases s.len(),
{
    if s.len() > 0 && s[0] == 0 {
        lemma_strip_zeros_head(s.skip(1));
    }
}

/// `10^20` exceeds `u64::MAX`, so a nonzero value followed by twenty or more
/// zero digits always overflows a 64-bit seconds field.
pub proof fn lemma_pow10_20_overflows()
    ensures
        pow10(20) > 0xffff_ffff_ffff_ffff,
{
    assert(pow10(20) == 100_000_000_000_000_000_000) by {
        reveal_with_fuel(pow10, 21);
    }
}

/// A nonzero value scaled by at least `10^20` exceeds `u64::MAX`.
pub proof fn lemma_nonzero_scaled_overflows(v: nat, z: nat)
    requires
        v >= 1,
        z >= 20,
    ensures
        v * pow10(z) > 0xffff_ffff_ffff_ffff,
{
    lemma_pow10_20_overflows();
    lemma_pow10_mono(20, z);
    lemma_mul_inequality(1, v as int, pow10(z) as int);
    assert(v * pow10(z) >= 1 * pow10(z)) by (nonlinear_arith)
        requires
            v >= 1,
    ;
}

/// Prefixes denote no more than the whole sequence.
pub proof fn lemma_seq_val_prefix_mono(s: Seq<u8>, i: int, j: int)
    requires
        0 <= i <= j <= s.len(),
    ensures
        seq_val(s.take(i)) <= seq_val(s.take(j)),
    decreases j - i,
{
    if i < j {
        lemma_seq_val_prefix_mono(s, i, j - 1);
        assert(s.take(j).drop_last() =~= s.take(j - 1));
        assert(seq_val(s.take(j)) == seq_val(s.take(j - 1)) * 10 + s.take(j).last());
        assert(seq_val(s.take(j - 1)) * 10 >= seq_val(s.take(j - 1)));
    }
}

/// `s` padded on the right with zero digits to nine places, or cut to its
/// first nine places: the fixed-point window a nanosecond field reads.
pub open spec fn pad9(s: Seq<u8>) -> Seq<u8> {
    if s.len() >= 9 {
        s.take(9)
    } else {
        s + zeros((9 - s.len()) as nat)
    }
}

/// The nanosecond value denoted by the digit sequence `s` read as a decimal
/// fraction: its first nine places, zero-padded (digits beyond the ninth
/// place are truncated, never rounded).
pub open spec fn nano_of(s: Seq<u8>) -> nat {
    seq_val(pad9(s))
}

pub proof fn lemma_pow10_9()
    ensures
        pow10(9) == 1_000_000_000,
{
    assert(pow10(9) == 1_000_000_000) by {
        reveal_with_fuel(pow10, 10);
    }
}

/// A nanosecond value is below one second.
pub proof fn lemma_nano_of_bound(s: Seq<u8>)
    requires
        all_digits(s),
    ensures
        nano_of(s) < 1_000_000_000,
{
    lemma_pow10_9();
    if s.len() >= 9 {
        assert(all_digits(s.take(9)));
        lemma_seq_val_bound(s.take(9));
    } else {
        assert(all_digits(s + zeros((9 - s.len()) as nat)));
        lemma_seq_val_bound(s + zeros((9 - s.len()) as nat));
    }
}

/// The total nanosecond count denoted by a digit value `dv` carrying `f`
/// fraction digits and a decimal exponent `e`: the floor of
/// `dv * 10^(e + 9 - f)`.
pub open spec fn total_nanos(dv: nat, f: nat, e: int) -> nat {
    let p = e + 9 - f;
    if p >= 0 {
        dv * pow10(p as nat)
    } else {
        dv / pow10((-p) as nat)
    }
}

/// Splitting the digit window at `k = len - f + e` when that point falls
/// inside the digits: the prefix denotes whole seconds, the suffix the
/// nanoseconds.
pub proof fn lemma_total_split_mid(d: Seq<u8>, f: nat, e: int)
    requires
        all_digits(d),
        f <= d.len(),
        0 <= d.len() - f + e <= d.len(),
    ensures
        total_nanos(seq_val(d), f, e) == seq_val(d.take(d.len() - f + e)) * 1_000_000_000
            + nano_of(d.skip(d.len() - f + e)),
        nano_of(d.skip(d.len() - f + e)) < 1_000_000_000,
{
    let len = d.len() as int;
    let k = len - f + e;
    let a = seq_val(d.take(k));
    let b_seq = d.skip(k);
    let b = seq_val(b_seq);
    let p = e + 9 - f;
    assert(b_seq.len() == f - e);
    assert(all_digits(b_seq));
    lemma_nano_of_bound(b_seq);
    lemma_pow10_9();
    lemma_seq_val_split(d, k);
    assert(seq_val(d) == a * pow10((f - e) as nat) + b);
    if p >= 0 {
        // f - e <= 9: shift everything left; the fraction window is padded
        assert(b_seq.len() <= 9);
        assert(total_nanos(seq_val(d), f, e) == (a * pow10((f - e) as nat) + b) * pow10(p as nat));
        lemma_pow10_adds((f - e) as nat, p as nat);
        assert(pow10((f - e) as nat) * pow10(p as nat) == pow10(9));
        assert((a * pow10((f - e) as nat) + b) * pow10(p as nat) == a * (pow10((f - e) as nat)
            * pow10(p as nat)) + b * pow10(p as nat)) by (nonlinear_arith);
        if b_seq.len() == 9 {
            assert(pad9(b_seq) =~= b_seq);
            assert(p == 0);
            assert(pow10(0) == 1);
            assert(nano_of(b_seq) == b);
            assert(a * pow10((f - e) as nat) * 1 == a * pow10(9)) by (nonlinear_arith)
                requires
                    pow10((f - e) as nat) == pow10(9),
            ;
            assert(b * 1 == b);
        } else {
            assert(pad9(b_seq) =~= b_seq + zeros((9 - b_seq.len()) as nat));
            lemma_seq_val_trailing_zeros(b_seq, (9 - b_seq.len()) as nat);
            assert(nano_of(b_seq) == b * pow10(p as nat));
        }
        assert(pow10(9) == 1_000_000_000);
        assert(a * (pow10((f - e) as nat) * pow10(p as nat)) == a * pow10(9));
        assert(total_nanos(seq_val(d), f, e) == a * 1_000_000_000 + nano_of(b_seq));
    } else {
        // f - e > 9: the fraction window is cut at nine places
        assert(b_seq.len() > 9);
        assert(pad9(b_seq) =~= b_seq.take(9));
        lemma_seq_val_div(d, k + 9);
        assert(total_nanos(seq_val(d), f, e) == seq_val(d) / pow10((len - k - 9) as nat));
        assert(seq_val(d) as int / pow10((d.len() - (k + 9)) as nat) as int == seq_val(
            d.take(k + 9),
        ) as int);
        lemma_seq_val_split(d.take(k + 9), k);
        assert(d.take(k + 9).take(k) =~= d.take(k));
        assert(d.take(k + 9).skip(k) =~= d.skip(k).take(9));
        assert(seq_val(d.take(k + 9)) == a * pow10(9) + seq_val(b_seq.take(9)));
        assert(nano_of(b_seq) == seq_val(b_seq.take(9)));
        assert(total_nanos(seq_val(d), f, e) == a * 1_000_000_000 + nano_of(b_seq));
    }
    assert(total_nanos(seq_val(d), f, e) == seq_val(d.take(k)) * 1_000_000_000 + nano_of(
        d.skip(k),
    ));
}

/// When the split point falls left of the digits, everything is fraction:
/// the whole-seconds window is empty and the value stays below one second.
pub proof fn lemma_total_split_low(d: Seq<u8>, f: nat, e: int)
    requires
        all_digits(d),
        f <= d.len(),
        d.len() - f + e < 0,
    ensures
        total_nanos(seq_val(d), f, e) == nano_of(zeros((f - d.len() - e) as nat) + d),
        total_nanos(seq_val(d), f, e) < 1_000_000_000,
{
    let z = (f - d.len() - e) as nat;
    let b_seq = zeros(z) + d;
    assert(all_digits(b_seq));
    lemma_seq_val_leading_zeros(z, d);
    assert(seq_val(b_seq) == seq_val(d));
    assert(b_seq.len() == f - e);
    let p = e + 9 - f;
    lemma_nano_of_bound(b_seq);
    lemma_pow10_9();
    if p >= 0 {
        assert(b_seq.len() <= 9);
        assert(total_nanos(seq_val(d), f, e) == seq_val(d) * pow10(p as nat));
        if b_seq.len() == 9 {
            assert(p == 0);
            assert(pow10(0) == 1);
            assert(pad9(b_seq) =~= b_seq);
            assert(nano_of(b_seq) == seq_val(d));
            assert(seq_val(d) * 1 == seq_val(d));
        } else {
            assert(pad9(b_seq) =~= b_seq + zeros((9 - b_seq.len()) as nat));
            lemma_seq_val_trailing_zeros(b_seq, (9 - b_seq.len()) as nat);
            assert((9 - b_seq.len()) as nat == p as nat);
            assert(nano_of(b_seq) == seq_val(d) * pow10(p as nat));
        }
    } else {
        assert(b_seq.len() > 9);
        assert(total_nanos(seq_val(d), f, e) == seq_val(d) as int / pow10((-p) as nat) as int);
        assert(pad9(b_seq) =~= b_seq.take(9));
        lemma_seq_val_div(b_seq, 9);
        assert((b_seq.len() - 9) as nat == (-p) as nat);
        assert(seq_val(b_seq) as int / pow10((-p) as nat) as int == seq_val(b_seq.take(9)) as int);
        assert(nano_of(b_seq) == seq_val(b_seq.take(9)));
    }
}

/// When the split point falls right of the digits, everything is whole
/// seconds, extended by `e - f` zero digits.
pub proof fn lemma_total_split_high(d: Seq<u8>, f: nat, e: int)
    requires
        all_digits(d),
        f <= d.len(),
        d.len() - f + e > d.len(),
    ensures
        total_nanos(seq_val(d), f, e) == (seq_val(d) * pow10((e - f) as nat)) * 1_000_000_000,
{
    let p = e + 9 - f;
    assert(p == (e - f) + 9);
    lemma_pow10_adds((e - f) as nat, 9);
    lemma_pow10_9();
    assert(seq_val(d) * (pow10((e - f) as nat) * pow10(9)) == (seq_val(d) * pow10(
        (e - f) as nat,
    )) * pow10(9)) by (nonlinear_arith);
}

/// The decimal digit sequence of `n` (most significant first; `0` is "0").
pub open spec fn dec_digits(n: nat) -> Seq<u8>
    decreases n,
{
    if n < 10 {
        seq![n as u8]
    } else {
        dec_digits(n / 10).push((n % 10) as u8)
    }
}

/// The ASCII bytes of a sequence of raw digit values.
pub open spec fn ascii_digits(s: Seq<u8>) -> Seq<u8> {
    s.map_values(|d: u8| (d + 48) as u8)
}

/// Reading the ASCII form of digit values back yields the values.
pub proof fn lemma_ascii_digits_roundtrip(s: Seq<u8>)
    requires
        all_digits(s),
    ensures
        digit_vals(ascii_digits(s)) == s,
        forall|i: int| 0 <= i < s.len() ==> 48 <= #[trigger] ascii_digits(s)[i] <= 57,
{
    assert(digit_vals(ascii_digits(s)) =~= s);
}

/// A nonzero value has no leading zero digit.
pub proof fn lemma_dec_digits_head(n: nat)
    requires
        n >= 1,
    ensures
        dec_digits(n)[0] != 0,
    decreases n,
{
    if n >= 10 {
        lemma_dec_digits_head(n / 10);
        assert(dec_digits(n)[0] == dec_digits(n / 10)[0]) by {
            lemma_dec_digits_val(n / 10);
        }
    }
}

/// Stripping the leading zeros of the decimal digits of `s` keeps the
/// value: only the single digit of zero itself is ever stripped.
pub proof fn lemma_strip_dec_digits(s: nat)
    ensures
        all_digits(strip_zeros(dec_digits(s))),
        seq_val(strip_zeros(dec_digits(s))) == s,
        strip_zeros(dec_digits(s)).len() <= dec_digits(s).len(),
{
    lemma_dec_digits_val(s);
    let ds = dec_digits(s);
    if s == 0 {
        assert(ds =~= seq![0u8]);
        assert(strip_zeros(ds) == strip_zeros(ds.skip(1)));
        assert(ds.skip(1) =~= Seq::<u8>::empty());
        assert(strip_zeros(Seq::<u8>::empty()) == Seq::<u8>::empty());
        assert(seq_val(Seq::<u8>::empty()) == 0);
    } else {
        lemma_dec_digits_head(s);
        assert(strip_zeros(ds) == ds);
    }
}

/// The canonical decimal form of a `(seconds, nanos)` pair: the decimal
/// digits of the seconds, a point, and exactly nine fraction digits.
pub open spec fn decimal_bytes(s: nat, n: nat) -> Seq<u8> {
    ascii_digits(dec_digits(s)) + seq![46u8] + ascii_digits(frac9(n))
}

/// A value below `10^k` has at most `k` decimal digits.
pub proof fn lemma_dec_digits_len(n: nat, k: nat)
    requires
        n < pow10(k),
        k >= 1,
    ensures
        dec_digits(n).len() <= k,
    decreases n,
{
    if n < 10 {
    } else {
        assert(pow10(k) == 10 * pow10((k - 1) as nat));
        assert(n / 10 < pow10((k - 1) as nat)) by (nonlinear_arith)
            requires
                n < 10 * pow10((k - 1) as nat),
                n >= 10,
        ;
        assert(pow10((k - 1) as nat) > 1) by {
            if k - 1 == 0 {
                assert(pow10(0) == 1);
                assert(n < 10 * 1);
                assert(false);
            } else {
                lemma_pow10_mono(1, (k - 1) as nat);
                assert(pow10(1) == 10) by {
                    reveal_with_fuel(pow10, 2);
                }
            }
        }
        lemma_dec_digits_len(n / 10, (k - 1) as nat);
        assert(dec_digits(n).len() == dec_digits(n / 10).len() + 1);
    }
}

/// The nine-digit, zero-padded decimal form of a nanosecond count.
pub open spec fn frac9(n: nat) -> Seq<u8> {
    zeros((9 - dec_digits(n).len()) as nat) + dec_digits(n)
}

/// For a value below one second, the padded form has exactly nine digits
/// and denotes the value itself.
pub proof fn lemma_frac9(n: nat)
    requires
        n <= 999_999_999,
    ensures
        frac9(n).len() == 9,
        seq_val(frac9(n)) == n,
        all_digits(frac9(n)),
{
    lemma_pow10_9();
    lemma_dec_digits_len(n, 9);
    lemma_dec_digits_val(n);
    lemma_seq_val_leading_zeros((9 - dec_digits(n).len()) as nat, dec_digits(n));
}

/// The decimal digits of `n` denote `n`.
pub proof fn lemma_dec_digits_val(n: nat)
    ensures
        seq_val(dec_digits(n)) == n,
        all_digits(dec_digits(n)),
        dec_digits(n).len() >= 1,
    decreases n,
{
    if n < 10 {
        let s = seq![n as u8];
        assert(s.drop_last() =~= Seq::<u8>::empty());
        assert(seq_val(s) == seq_val(Seq::<u8>::empty()) * 10 + n);
    } else {
        lemma_dec_digits_val(n / 10);
        let s = dec_digits(n / 10).push((n % 10) as u8);
        assert(s.drop_last() =~= dec_digits(n / 10));
        assert(seq_val(s) == (n / 10) * 10 + n % 10);
    }
}

} // verus!
