//! The lexical scanner: a byte cursor over the input that recognizes sign,
//! infinity, digit runs, decimal point, exponent and time-unit tokens, and
//! accumulates them into a [`DurationRepr`].
//!
//! The scanner walks the input once, left to right, one byte at a time
//! except for an eight-digit fast path that probes eight consecutive bytes
//! with one masked 64-bit test. No backtracking is needed; errors carry the
//! byte position at which scanning stopped.

use vstd::prelude::*;
use vstd::string::StringSliceAdditionalSpecFns;
use crate::arith::{all_digits, digit_vals, seq_val, strip_zeros};
use crate::config::{Config, Delimiter};
use crate::error::ParseError;
use crate::repr::{DurationRepr, Fract, Whole};
use crate::time::{Multiplier, TimeUnit, TimeUnitsLike};

verus! {

/// An ASCII decimal digit.
pub open spec fn is_digit_byte(b: u8) -> bool {
    48 <= b <= 57
}

/// The length of the run of ASCII digits starting at `i` in `s`.
pub open spec fn digit_run(s: Seq<u8>, i: int) -> int
    decreases s.len() - i when 0 <= i <= s.len()
{
    if i < 0 || i >= s.len() || !is_digit_byte(s[i]) {
        0
    } else {
        1 + digit_run(s, i + 1)
    }
}

/// The digit value stored at byte position `j` of a packed eight-digit
/// word.
pub open spec fn packed_digit(v: u64, j: int) -> u64 {
    (v >> ((8 * j) as u64)) & 0xff
}

/// The first `n` elements of `s`, or all of `s` when it is shorter.
pub open spec fn take_at_most(s: Seq<u8>, n: int) -> Seq<u8> {
    if n >= s.len() {
        s
    } else {
        s.take(n)
    }
}

/// The decimal value of a digit run dominates the value of any of its
/// prefixes, so an overflow seen while accumulating a prefix is final.
proof fn lemma_exponent_run_overflow(inp: Seq<u8>, p1: int, m: int, n: int)
    requires
        0 <= p1 <= m <= inp.len(),
        n == digit_run(inp, p1),
        m <= p1 + n,
        forall|i: int| p1 <= i < m ==> is_digit_byte(#[trigger] inp[i]),
    ensures
        seq_val(digit_vals(inp.subrange(p1, p1 + n))) >= seq_val(digit_vals(inp.subrange(p1, m))),
{
    lemma_digit_run_nonneg(inp, p1);
    let full = digit_vals(inp.subrange(p1, p1 + n));
    assert(full.take(m - p1) =~= digit_vals(inp.subrange(p1, m)));
    assert(full.take(full.len() as int) =~= full);
    crate::arith::lemma_seq_val_prefix_mono(full, m - p1, full.len() as int);
}

/// A span of digits is no longer than the run containing it.
proof fn lemma_digit_run_at_least(s: Seq<u8>, i: int, j: int)
    requires
        0 <= i <= j <= s.len(),
        forall|m: int| i <= m < j ==> is_digit_byte(#[trigger] s[m]),
    ensures
        digit_run(s, i) >= j - i,
    decreases j - i,
{
    if i < j {
        assert(is_digit_byte(s[i]));
        lemma_digit_run_at_least(s, i + 1, j);
        assert(digit_run(s, i) == 1 + digit_run(s, i + 1));
    } else {
        lemma_digit_run_nonneg(s, i);
    }
}

/// A digit run never has negative length.
pub proof fn lemma_digit_run_nonneg(s: Seq<u8>, i: int)
    requires
        0 <= i <= s.len(),
    ensures
        digit_run(s, i) >= 0,
        i + digit_run(s, i) <= s.len(),
    decreases s.len() - i,
{
    if i < s.len() && is_digit_byte(s[i]) {
        lemma_digit_run_nonneg(s, i + 1);
    }
}

/// A digit run is as long as its all-digit span when a non-digit (or the
/// end) follows.
pub proof fn lemma_digit_run_ends(s: Seq<u8>, i: int, j: int)
    requires
        0 <= i <= j <= s.len(),
        forall|m: int| i <= m < j ==> is_digit_byte(#[trigger] s[m]),
        j == s.len() || !is_digit_byte(s[j]),
    ensures
        digit_run(s, i) == j - i,
    decreases j - i,
{
    if i < j {
        lemma_digit_run_ends(s, i + 1, j);
    }
}

/// The length of the time-unit token starting at `i`: bytes up to the next
/// delimiter byte, digit, or the end of the input.
pub open spec fn token_run(s: Seq<u8>, i: int, d: Delimiter) -> int
    decreases s.len() - i when 0 <= i <= s.len()
{
    if i < 0 || i >= s.len() || d.spec_matches(s[i]) || is_digit_byte(s[i]) {
        0
    } else {
        1 + token_run(s, i + 1, d)
    }
}

/// A token run is as long as its span when a delimiter, digit or the end
/// follows.
proof fn lemma_token_run_ends(s: Seq<u8>, i: int, j: int, d: Delimiter)
    requires
        0 <= i <= j <= s.len(),
        forall|m: int|
            i <= m < j ==> !d.spec_matches(#[trigger] s[m]) && !is_digit_byte(s[m]),
        j == s.len() || d.spec_matches(s[j]) || is_digit_byte(s[j]),
    ensures
        token_run(s, i, d) == j - i,
    decreases j - i,
{
    if i < j {
        lemma_token_run_ends(s, i + 1, j, d);
    }
}

/// Store one whole-part digit: leading zeros are dropped until the first
/// nonzero digit, and nothing is stored once `cap` digits sit in the buffer
/// (the cursor, which the caller advances, is unaffected).
fn push_digit_stripped(
    digits: &mut Vec<u8>,
    stripping: &mut bool,
    pushed: &mut usize,
    cap: usize,
    d: u8,
    Ghost(vs): Ghost<Seq<u8>>,
) -> (r: ())
    requires
        d < 10,
        old(digits)@ == take_at_most(strip_zeros(vs), cap as int),
        *old(stripping) <==> strip_zeros(vs).len() == 0,
        *old(pushed) == old(digits)@.len(),
        *old(pushed) <= cap,
        all_digits(old(digits)@),
    ensures
        final(digits)@ == take_at_most(strip_zeros(vs.push(d)), cap as int),
        (*final(stripping) <==> strip_zeros(vs.push(d)).len() == 0),
        *final(pushed) == final(digits)@.len(),
        *final(pushed) <= cap,
        all_digits(final(digits)@),
{
    proof {
        crate::arith::lemma_strip_zeros_push(vs, d);
    }
    let ghost st = strip_zeros(vs);
    let ghost st2 = strip_zeros(vs.push(d));
    if (d != 0 || !*stripping) && *pushed < cap {
        digits.push(d);
        *pushed = *pushed + 1;
        proof {
            assert(st2 == st.push(d));
            assert(st.len() <= cap);
            assert(take_at_most(st, cap as int) == st);
            assert(digits@ == st.push(d));
            assert(st2.len() <= cap);
            assert(take_at_most(st2, cap as int) == st2);
        }
    } else if d == 0 && *stripping {
        proof {
            assert(st2 =~= Seq::<u8>::empty());
            assert(digits@.len() == 0);
            assert(take_at_most(st2, cap as int) =~= Seq::<u8>::empty());
        }
    } else {
        // buffer full: the digit is consumed but not stored
        proof {
            assert(st2 == st.push(d));
            assert(*pushed == cap);
            assert(st.len() >= cap);
            assert(take_at_most(st2, cap as int) =~= take_at_most(st, cap as int));
        }
    }
    if d != 0 {
        *stripping = false;
    }
    proof {
        if strip_zeros(vs.push(d)).len() == 0 {
            assert(*stripping);
        } else {
            if *stripping {
                assert(st.len() == 0 && d == 0);
                assert(st2.len() == 0);
            }
        }
    }
}

/// Store one fraction-part digit: leading zeros are preserved, and nothing
/// is stored once `cap` digits of this part sit in the buffer.
fn push_digit_capped(
    digits: &mut Vec<u8>,
    pushed: &mut usize,
    cap: usize,
    d: u8,
    Ghost(base): Ghost<Seq<u8>>,
    Ghost(vs): Ghost<Seq<u8>>,
) -> (r: ())
    requires
        d < 10,
        old(digits)@ == base + take_at_most(vs, cap as int),
        *old(pushed) == take_at_most(vs, cap as int).len(),
        *old(pushed) <= cap,
        all_digits(old(digits)@),
    ensures
        final(digits)@ == base + take_at_most(vs.push(d), cap as int),
        *final(pushed) == take_at_most(vs.push(d), cap as int).len(),
        *final(pushed) <= cap,
        all_digits(final(digits)@),
{
    if *pushed < cap {
        digits.push(d);
        *pushed = *pushed + 1;
        proof {
            assert(vs.len() == *pushed - 1 < cap);
            assert(take_at_most(vs, cap as int) == vs);
            assert(take_at_most(vs.push(d), cap as int) == vs.push(d));
            assert(digits@ =~= base + vs.push(d));
        }
    } else {
        proof {
            assert(vs.len() >= cap);
            assert(take_at_most(vs.push(d), cap as int) =~= take_at_most(vs, cap as int));
        }
    }
}

/// How many whole-part digits the buffer keeps: enough that any digit
/// dropped past the bound could only feed a result that saturates anyway.
pub open spec fn spec_whole_cap(cfg: Config, remaining: int) -> int {
    let a = if cfg.min_exponent < 0 {
        -(cfg.min_exponent as int)
    } else {
        cfg.min_exponent as int
    };
    if remaining < a + 32 {
        remaining
    } else {
        a + 32
    }
}

/// How many fraction-part digits the buffer keeps: enough that any digit
/// dropped past the bound could never reach the nanosecond window.
pub open spec fn spec_fract_cap(cfg: Config, remaining: int) -> int {
    let mx = if cfg.max_exponent < 0 {
        0
    } else {
        cfg.max_exponent as int
    };
    if remaining < mx + 25 {
        remaining
    } else {
        mx + 25
    }
}

/// The canonical decimal form of `(s, n)`, standing at `off` in the input
/// and filling it to the end, scans as one digit run, a point and nine
/// fraction digits.
pub proof fn lemma_decimal_shape(inp: Seq<u8>, off: int, s: u64, n: u32)
    requires
        n <= 999_999_999,
        0 <= off,
        inp.len() == off + crate::arith::dec_digits(s as nat).len() + 10,
        inp.subrange(off, inp.len() as int) == crate::arith::decimal_bytes(s as nat, n as nat),
    ensures
        ({
            let ds = crate::arith::dec_digits(s as nat);
            &&& ds.len() >= 1
            &&& is_digit_byte(inp[off])
            &&& digit_run(inp, off) == ds.len()
            &&& inp[off + ds.len()] == 46
            &&& digit_run(inp, off + ds.len() + 1) == 9
            &&& inp.subrange(off, off + ds.len()) == crate::arith::ascii_digits(ds)
            &&& inp.subrange(off + ds.len() + 1, inp.len() as int) == crate::arith::ascii_digits(
                crate::arith::frac9(n as nat),
            )
        }),
{
    let ds = crate::arith::dec_digits(s as nat);
    let fr = crate::arith::frac9(n as nat);
    let tail = crate::arith::decimal_bytes(s as nat, n as nat);
    crate::arith::lemma_dec_digits_val(s as nat);
    crate::arith::lemma_frac9(n as nat);
    crate::arith::lemma_ascii_digits_roundtrip(ds);
    crate::arith::lemma_ascii_digits_roundtrip(fr);
    let dot = off + ds.len() as int;
    let len = inp.len() as int;
    assert(forall|i: int|
        off <= i < len ==> #[trigger] inp[i] == tail[i - off]) by {
        assert(forall|i: int|
            off <= i < len ==> inp.subrange(off, len)[i - off] == #[trigger] inp[i]);
    }
    assert(inp[dot] == 46);
    assert forall|i: int| off <= i < dot implies is_digit_byte(#[trigger] inp[i]) by {
        assert(inp[i] == crate::arith::ascii_digits(ds)[i - off]);
    }
    assert(!is_digit_byte(inp[dot]));
    lemma_digit_run_ends(inp, off, dot);
    assert forall|i: int| dot + 1 <= i < len implies is_digit_byte(#[trigger] inp[i]) by {
        assert(inp[i] == crate::arith::ascii_digits(fr)[i - dot - 1]);
    }
    lemma_digit_run_ends(inp, dot + 1, len);
    assert(inp.subrange(off, off + ds.len()) =~= crate::arith::ascii_digits(ds));
    assert(inp.subrange(dot + 1, len) =~= crate::arith::ascii_digits(fr));
}

/// The digit windows the scanner keeps for a canonical decimal form: both
/// runs fit every buffer bound, so the whole part is exactly the stripped
/// decimal digits of the seconds and the fraction part is exactly the nine
/// padded digits of the nanoseconds.
pub proof fn lemma_decimal_windows(inp: Seq<u8>, off: int, s: u64, n: u32, cfg: Config)
    requires
        n <= 999_999_999,
        0 <= off,
        inp.len() == off + crate::arith::dec_digits(s as nat).len() + 10,
        inp.subrange(off, inp.len() as int) == crate::arith::decimal_bytes(s as nat, n as nat),
    ensures
        ({
            let ds = crate::arith::dec_digits(s as nat);
            let dot = off + ds.len() as int;
            &&& ds.len() >= 1
            &&& is_digit_byte(inp[off])
            &&& digit_run(inp, off) == ds.len()
            &&& inp[dot] == 46
            &&& digit_run(inp, dot + 1) == 9
            &&& dot + 1 + 9 == inp.len()
            &&& take_at_most(
                strip_zeros(digit_vals(inp.subrange(off, dot))),
                spec_whole_cap(cfg, inp.len() - off),
            ) == strip_zeros(ds)
            &&& take_at_most(
                digit_vals(inp.subrange(dot + 1, inp.len() as int)),
                spec_fract_cap(cfg, inp.len() - dot - 1),
            ) == crate::arith::frac9(n as nat)
            &&& all_digits(strip_zeros(ds))
            &&& seq_val(strip_zeros(ds)) == s
        }),
{
    let ds = crate::arith::dec_digits(s as nat);
    let fr = crate::arith::frac9(n as nat);
    crate::arith::lemma_dec_digits_val(s as nat);
    crate::arith::lemma_frac9(n as nat);
    crate::arith::lemma_ascii_digits_roundtrip(ds);
    crate::arith::lemma_ascii_digits_roundtrip(fr);
    crate::arith::lemma_strip_dec_digits(s as nat);
    crate::arith::lemma_pow10_20_overflows();
    crate::arith::lemma_dec_digits_len(s as nat, 20);
    lemma_decimal_shape(inp, off, s, n);
    let dot = off + ds.len() as int;
    let dw = strip_zeros(ds);
    // the whole run is far below any buffer bound
    assert(spec_whole_cap(cfg, inp.len() - off) >= dw.len());
    assert(take_at_most(dw, spec_whole_cap(cfg, inp.len() - off)) == dw);
    assert(digit_vals(inp.subrange(off, dot)) == ds);
    // the nine fraction digits fit their bound exactly
    assert(spec_fract_cap(cfg, inp.len() - dot - 1) == 9);
    assert(digit_vals(inp.subrange(dot + 1, inp.len() as int)) == fr);
    assert(take_at_most(fr, 9) == fr);
}

/// The digit window the scanner keeps for a bare decimal integer filling
/// the input from `off`: exactly the stripped decimal digits of `s`.
pub proof fn lemma_integer_windows(inp: Seq<u8>, off: int, s: u64, cfg: Config)
    requires
        0 <= off,
        inp.len() == off + crate::arith::dec_digits(s as nat).len(),
        inp.subrange(off, inp.len() as int) == crate::arith::ascii_digits(
            crate::arith::dec_digits(s as nat),
        ),
    ensures
        ({
            let ds = crate::arith::dec_digits(s as nat);
            &&& ds.len() >= 1
            &&& is_digit_byte(inp[off])
            &&& digit_run(inp, off) == ds.len()
            &&& off + ds.len() == inp.len()
            &&& take_at_most(
                strip_zeros(digit_vals(inp.subrange(off, inp.len() as int))),
                spec_whole_cap(cfg, inp.len() - off),
            ) == strip_zeros(ds)
            &&& all_digits(strip_zeros(ds))
            &&& seq_val(strip_zeros(ds)) == s
        }),
{
    let ds = crate::arith::dec_digits(s as nat);
    let len = inp.len() as int;
    crate::arith::lemma_dec_digits_val(s as nat);
    crate::arith::lemma_ascii_digits_roundtrip(ds);
    crate::arith::lemma_strip_dec_digits(s as nat);
    crate::arith::lemma_pow10_20_overflows();
    crate::arith::lemma_dec_digits_len(s as nat, 20);
    assert(forall|i: int|
        off <= i < len ==> #[trigger] inp[i] == crate::arith::ascii_digits(ds)[i - off]) by {
        assert(forall|i: int|
            off <= i < len ==> inp.subrange(off, len)[i - off] == #[trigger] inp[i]);
    }
    assert forall|i: int| off <= i < len implies is_digit_byte(#[trigger] inp[i]) by {
        assert(inp[i] == crate::arith::ascii_digits(ds)[i - off]);
    }
    lemma_digit_run_ends(inp, off, len);
    assert(digit_vals(inp.subrange(off, len)) == ds);
    let dw = strip_zeros(ds);
    assert(spec_whole_cap(cfg, len - off) >= dw.len());
    assert(take_at_most(dw, spec_whole_cap(cfg, len - off)) == dw);
}

/// The lowercase bytes of `inity`, the tail of the long infinity word.
pub open spec fn inity_byte(j: int) -> u8 {
    if j == 0 {
        105
    } else if j == 1 {
        110
    } else if j == 2 {
        105
    } else if j == 3 {
        116
    } else {
        121
    }
}

/// ASCII-case-insensitive equality of a byte with a lowercase letter.
pub open spec fn ic_eq(b: u8, lower: u8) -> bool {
    b == lower || b + 32 == lower
}

/// How many of the five bytes of `inity` match at `i` of `s`,
/// case-insensitively, counting from position `j` of the word.
pub open spec fn inity_prefix(s: Seq<u8>, i: int, j: int) -> int
    decreases 5 - j when 0 <= j <= 5
{
    if j >= 5 || i + j >= s.len() || !ic_eq(s[i + j], inity_byte(j)) {
        j
    } else {
        inity_prefix(s, i, j + 1)
    }
}

/// What consuming a segment-boundary delimiter run from `start` means: the
/// run is non-empty and consists of delimiter bytes; it either stops before
/// a non-delimiter byte (success) or reaches the end of the input (an error
/// anchored at the run's start).
pub open spec fn boundary_consumed<'a>(
    cfg: Config<'a>,
    inp: Seq<u8>,
    start: int,
    end: int,
    r: Result<(), ParseError>,
) -> bool {
    match cfg.parse_multiple_delimiter {
        Some(md) => {
            &&& start < end <= inp.len()
            &&& (forall|i: int| start <= i < end ==> md.spec_matches(#[trigger] inp[i]))
            &&& match r {
                Ok(_) => end < inp.len() && !md.spec_matches(inp[end as int]),
                Err(e) => end == inp.len() && e.is_syntax_at(start),
            }
        },
        None => false,
    }
}

/// The delimiter that ends a time-unit token: the segment delimiter when
/// several durations may follow each other, else the `ago` delimiter when
/// that keyword is allowed.
pub open spec fn unit_scan_delimiter(c: Config) -> Option<Delimiter> {
    if c.parse_multiple_delimiter is Some {
        c.parse_multiple_delimiter
    } else {
        c.allow_ago
    }
}

/// A cursor over the input bytes together with the configuration and the
/// time-unit table consulted while scanning.
pub struct ReprParser<'a, T: TimeUnitsLike> {
    /// The input bytes.
    pub input: &'a [u8],
    /// The zero-based scanning position.
    pub pos: usize,
    /// The configuration in force.
    pub config: &'a Config<'a>,
    /// The table deciding which time-unit identifiers are recognized.
    pub time_units: &'a T,
}

impl<'a, T: TimeUnitsLike> ReprParser<'a, T> {
    /// The cursor sits inside the input (possibly one past the last byte).
    pub open spec fn wf(self) -> bool {
        self.pos <= self.input@.len() && self.input@.len() <= usize::MAX
    }

    /// Unchanged input, configuration and table: only the position moves.
    pub open spec fn same_views(self, other: Self) -> bool {
        self.input == other.input && self.config == other.config && self.time_units
            == other.time_units
    }

    /// Start a scanner at the beginning of `input`.
    pub fn new(input: &'a str, config: &'a Config<'a>, time_units: &'a T) -> (r: Self)
        ensures
            r.input@ == input.spec_bytes(),
            r.pos == 0,
            r.config == config,
            r.time_units == time_units,
            r.wf(),
    {
        let bytes = input.as_bytes();
        let n = bytes.len();
        proof {
            assert(bytes@.len() == n);
        }
        ReprParser { input: bytes, pos: 0, config, time_units }
    }

    /// Where the scanner stands.
    pub fn current_pos(&self) -> (r: usize)
        ensures
            r == self.pos,
    {
        self.pos
    }

    /// The byte under the cursor, or `None` at the end of the input.
    pub fn peek_byte(&self) -> (r: Option<u8>)
        requires
            self.wf(),
        ensures
            match r {
                Some(b) => self.pos < self.input@.len() && b == self.input@[self.pos as int],
                None => self.pos == self.input@.len(),
            },
    {
        if self.pos < self.input.len() {
            Some(self.input[self.pos])
        } else {
            None
        }
    }

    /// Step one byte forward.
    pub fn advance(&mut self)
        requires
            old(self).wf(),
            old(self).pos < old(self).input@.len(),
        ensures
            final(self).pos == old(self).pos + 1,
            old(self).same_views(*final(self)),
            final(self).wf(),
    {
        self.pos = self.pos + 1;
    }

    /// Step `num` bytes forward.
    pub fn advance_by(&mut self, num: usize)
        requires
            old(self).wf(),
            old(self).pos + num <= old(self).input@.len(),
        ensures
            final(self).pos == old(self).pos + num,
            old(self).same_views(*final(self)),
            final(self).wf(),
    {
        self.pos = self.pos + num;
    }

    /// The next `num` bytes, or `None` when fewer remain.
    pub fn peek(&self, num: usize) -> (r: Option<&[u8]>)
        requires
            self.wf(),
        ensures
            match r {
                Some(s) => self.pos + num <= self.input@.len() && s@ == self.input@.subrange(
                    self.pos as int,
                    self.pos + num,
                ),
                None => self.pos + num > self.input@.len(),
            },
    {
        if num <= self.input.len() - self.pos {
            Some(&self.input[self.pos..self.pos + num])
        } else {
            None
        }
    }

    /// Everything from the cursor to the end of the input.
    pub fn get_remainder(&self) -> (r: &[u8])
        requires
            self.wf(),
        ensures
            r@ == self.input@.skip(self.pos as int),
    {
        let r = &self.input[self.pos..self.input.len()];
        proof {
            assert(r@ =~= self.input@.skip(self.pos as int));
        }
        r
    }

    /// Jump to the end of the input.
    pub fn finish(&mut self)
        requires
            old(self).wf(),
        ensures
            final(self).pos == final(self).input@.len(),
            old(self).same_views(*final(self)),
            final(self).wf(),
    {
        self.pos = self.input.len();
    }

    /// Scan an optional sign. Yields true for `-`, false for `+` or no sign;
    /// an empty remainder is a syntax error.
    pub fn parse_sign_is_negative(&mut self) -> (r: Result<bool, ParseError>)
        requires
            old(self).wf(),
        ensures
            old(self).same_views(*final(self)),
            final(self).wf(),
            match r {
                Ok(neg) => {
                    &&& old(self).pos < final(self).input@.len()
                    &&& (neg <==> final(self).input@[old(self).pos as int] == 45)
                    &&& (final(self).pos == if final(self).input@[old(self).pos as int] == 45
                        || final(self).input@[old(self).pos as int] == 43 {
                        old(self).pos + 1
                    } else {
                        old(self).pos as int
                    })
                },
                Err(e) => {
                    &&& old(self).pos == final(self).input@.len()
                    &&& final(self).pos == old(self).pos
                    &&& e.is_syntax_at(old(self).pos as int)
                },
            },
    {
        match self.peek_byte() {
            Some(43) => {
                self.advance();
                Ok(false)
            },
            Some(45) => {
                self.advance();
                Ok(true)
            },
            Some(_) => Ok(false),
            None => Err(ParseError::Syntax(self.pos, "Unexpected end of input")),
        }
    }

    /// Consume the maximal run of delimiter bytes under the cursor.
    pub fn consume_delimiter(&mut self, delimiter: Delimiter)
        requires
            old(self).wf(),
        ensures
            old(self).same_views(*final(self)),
            final(self).wf(),
            old(self).pos <= final(self).pos,
            forall|i: int|
                old(self).pos <= i < final(self).pos ==> delimiter.spec_matches(
                    #[trigger] final(self).input@[i],
                ),
            final(self).pos == final(self).input@.len() || !delimiter.spec_matches(
                final(self).input@[final(self).pos as int],
            ),
    {
        loop
            invariant
                self.wf(),
                old(self).same_views(*self),
                old(self).pos <= self.pos,
                forall|i: int|
                    old(self).pos <= i < self.pos ==> delimiter.spec_matches(
                        #[trigger] self.input@[i],
                    ),
            ensures
                self.pos == self.input@.len() || !delimiter.spec_matches(
                    self.input@[self.pos as int],
                ),
            decreases self.input@.len() - self.pos,
        {
            match self.peek_byte() {
                Some(b) => {
                    if delimiter.matches(b) {
                        self.advance();
                    } else {
                        break;
                    }
                },
                None => {
                    break;
                },
            }
        }
    }

    /// The eight bytes at the cursor, packed into one little-endian word.
    fn load8(&self) -> (w: u64)
        requires
            self.wf(),
            self.pos + 8 <= self.input@.len(),
        ensures
            w == (self.input@[self.pos as int] as u64) | ((self.input@[self.pos + 1] as u64) << 8)
                | ((self.input@[self.pos + 2] as u64) << 16) | ((self.input@[self.pos + 3] as u64)
                << 24) | ((self.input@[self.pos + 4] as u64) << 32) | ((self.input@[self.pos
                + 5] as u64) << 40) | ((self.input@[self.pos + 6] as u64) << 48) | ((self.input@[
                self.pos + 7] as u64) << 56),
    {
        let p = self.pos;
        (self.input[p] as u64) | ((self.input[p + 1] as u64) << 8) | ((self.input[p + 2] as u64)
            << 16) | ((self.input[p + 3] as u64) << 24) | ((self.input[p + 4] as u64) << 32) | ((
        self.input[p + 5] as u64) << 40) | ((self.input[p + 6] as u64) << 48) | ((self.input[p
            + 7] as u64) << 56)
    }

    /// Probe whether the next eight bytes are all ASCII digits with a single
    /// masked 64-bit test.
    pub fn is_8_digits(&self) -> (r: bool)
        requires
            self.wf(),
        ensures
            r <==> (self.pos + 8 <= self.input@.len() && forall|j: int|
                0 <= j < 8 ==> is_digit_byte(#[trigger] self.input@[self.pos + j])),
    {
        if self.input.len() - self.pos < 8 {
            return false;
        }
        let w = self.load8();
        let wadd = w.wrapping_add(0x0606_0606_0606_0606);
        let r = (w & wadd & 0xf0f0_f0f0_f0f0_f0f0) == 0x3030_3030_3030_3030;
        proof {
            let b0 = self.input@[self.pos as int];
            let b1 = self.input@[self.pos + 1];
            let b2 = self.input@[self.pos + 2];
            let b3 = self.input@[self.pos + 3];
            let b4 = self.input@[self.pos + 4];
            let b5 = self.input@[self.pos + 5];
            let b6 = self.input@[self.pos + 6];
            let b7 = self.input@[self.pos + 7];
            assert(((w & wadd & 0xf0f0_f0f0_f0f0_f0f0) == 0x3030_3030_3030_3030) <==> (48 <= b0
                <= 57 && 48 <= b1 <= 57 && 48 <= b2 <= 57 && 48 <= b3 <= 57 && 48 <= b4 <= 57 && 48
                <= b5 <= 57 && 48 <= b6 <= 57 && 48 <= b7 <= 57)) by (bit_vector)
                requires
                    w == (b0 as u64) | ((b1 as u64) << 8) | ((b2 as u64) << 16) | ((b3 as u64)
                        << 24) | ((b4 as u64) << 32) | ((b5 as u64) << 40) | ((b6 as u64) << 48) | (
                    (b7 as u64) << 56),
                    wadd == (if w + 0x0606_0606_0606_0606 > 0xffff_ffff_ffff_ffffu64 {
                        (w + 0x0606_0606_0606_0606 - 0x1_0000_0000_0000_0000) as u64
                    } else {
                        (w + 0x0606_0606_0606_0606) as u64
                    }),
            ;
            if r {
                assert forall|j: int| 0 <= j < 8 implies is_digit_byte(
                    #[trigger] self.input@[self.pos + j],
                ) by {
                    if j == 0 {
                        assert(self.input@[self.pos + j] == b0);
                    } else if j == 1 {
                        assert(self.input@[self.pos + j] == b1);
                    } else if j == 2 {
                        assert(self.input@[self.pos + j] == b2);
                    } else if j == 3 {
                        assert(self.input@[self.pos + j] == b3);
                    } else if j == 4 {
                        assert(self.input@[self.pos + j] == b4);
                    } else if j == 5 {
                        assert(self.input@[self.pos + j] == b5);
                    } else if j == 6 {
                        assert(self.input@[self.pos + j] == b6);
                    } else {
                        assert(j == 7);
                        assert(self.input@[self.pos + j] == b7);
                    }
                }
            } else {
                // some byte fails the probe: name it to refute the forall
                assert(self.input@[self.pos + 0] == b0);
                assert(self.input@[self.pos + 1] == b1);
                assert(self.input@[self.pos + 2] == b2);
                assert(self.input@[self.pos + 3] == b3);
                assert(self.input@[self.pos + 4] == b4);
                assert(self.input@[self.pos + 5] == b5);
                assert(self.input@[self.pos + 6] == b6);
                assert(self.input@[self.pos + 7] == b7);
                assert(!(forall|j: int|
                    0 <= j < 8 ==> is_digit_byte(#[trigger] self.input@[self.pos + j])));
            }
        }
        r
    }

    /// Scan eight digits at once. On success the cursor advances by eight
    /// and the raw digit values come back packed one per byte, little-endian.
    pub fn parse_8_digits(&mut self) -> (r: Option<u64>)
        requires
            old(self).wf(),
        ensures
            old(self).same_views(*final(self)),
            final(self).wf(),
            match r {
                Some(v) => {
                    &&& old(self).pos + 8 <= final(self).input@.len()
                    &&& final(self).pos == old(self).pos + 8
                    &&& (forall|j: int|
                        0 <= j < 8 ==> is_digit_byte(
                            #[trigger] final(self).input@[old(self).pos + j],
                        ))
                    &&& (forall|j: int|
                        0 <= j < 8 ==> packed_digit(v, j) == (#[trigger] final(self).input@[old(
                            self,
                        ).pos + j]) - 48)
                },
                None => {
                    &&& final(self).pos == old(self).pos
                    &&& !(old(self).pos + 8 <= final(self).input@.len() && (forall|j: int|
                        0 <= j < 8 ==> is_digit_byte(
                            #[trigger] final(self).input@[old(self).pos + j],
                        )))
                },
            },
    {
        if !self.is_8_digits() {
            return None;
        }
        proof {
            assert(is_digit_byte(self.input@[self.pos + 0]));
            assert(is_digit_byte(self.input@[self.pos + 1]));
            assert(is_digit_byte(self.input@[self.pos + 2]));
            assert(is_digit_byte(self.input@[self.pos + 3]));
            assert(is_digit_byte(self.input@[self.pos + 4]));
            assert(is_digit_byte(self.input@[self.pos + 5]));
            assert(is_digit_byte(self.input@[self.pos + 6]));
            assert(is_digit_byte(self.input@[self.pos + 7]));
        }
        let w = self.load8();
        proof {
            let b0 = self.input@[self.pos as int];
            let b1 = self.input@[self.pos + 1];
            let b2 = self.input@[self.pos + 2];
            let b3 = self.input@[self.pos + 3];
            let b4 = self.input@[self.pos + 4];
            let b5 = self.input@[self.pos + 5];
            let b6 = self.input@[self.pos + 6];
            let b7 = self.input@[self.pos + 7];
            assert(w >= 0x3030_3030_3030_3030) by (bit_vector)
                requires
                    w == (b0 as u64) | ((b1 as u64) << 8) | ((b2 as u64) << 16) | ((b3 as u64)
                        << 24) | ((b4 as u64) << 32) | ((b5 as u64) << 40) | ((b6 as u64) << 48) | (
                    (b7 as u64) << 56),
                    48 <= b0 <= 57,
                    48 <= b1 <= 57,
                    48 <= b2 <= 57,
                    48 <= b3 <= 57,
                    48 <= b4 <= 57,
                    48 <= b5 <= 57,
                    48 <= b6 <= 57,
                    48 <= b7 <= 57,
            ;
        }
        let v = w - 0x3030_3030_3030_3030;
        proof {
            let b0 = self.input@[self.pos as int];
            let b1 = self.input@[self.pos + 1];
            let b2 = self.input@[self.pos + 2];
            let b3 = self.input@[self.pos + 3];
            let b4 = self.input@[self.pos + 4];
            let b5 = self.input@[self.pos + 5];
            let b6 = self.input@[self.pos + 6];
            let b7 = self.input@[self.pos + 7];
            assert((v >> 0u64) & 0xff == b0 - 48 && (v >> 8u64) & 0xff == b1 - 48 && (v >> 16u64)
                & 0xff == b2 - 48 && (v >> 24u64) & 0xff == b3 - 48 && (v >> 32u64) & 0xff == b4
                - 48 && (v >> 40u64) & 0xff == b5 - 48 && (v >> 48u64) & 0xff == b6 - 48 && (v
                >> 56u64) & 0xff == b7 - 48) by (bit_vector)
                requires
                    w == (b0 as u64) | ((b1 as u64) << 8) | ((b2 as u64) << 16) | ((b3 as u64)
                        << 24) | ((b4 as u64) << 32) | ((b5 as u64) << 40) | ((b6 as u64) << 48) | (
                    (b7 as u64) << 56),
                    48 <= b0 <= 57,
                    48 <= b1 <= 57,
                    48 <= b2 <= 57,
                    48 <= b3 <= 57,
                    48 <= b4 <= 57,
                    48 <= b5 <= 57,
                    48 <= b6 <= 57,
                    48 <= b7 <= 57,
                    v == (w - 0x3030_3030_3030_3030) as u64,
            ;
        }
        let ghost p0 = self.pos;
        self.advance_by(8);
        proof {
            assert forall|j: int| 0 <= j < 8 implies packed_digit(v, j) == (
            #[trigger] self.input@[p0 + j]) - 48 by {
                if j == 0 {
                    assert((8 * 0) as u64 == 0u64);
                } else if j == 1 {
                    assert((8 * 1) as u64 == 8u64);
                } else if j == 2 {
                    assert((8 * 2) as u64 == 16u64);
                } else if j == 3 {
                    assert((8 * 3) as u64 == 24u64);
                } else if j == 4 {
                    assert((8 * 4) as u64 == 32u64);
                } else if j == 5 {
                    assert((8 * 5) as u64 == 40u64);
                } else if j == 6 {
                    assert((8 * 6) as u64 == 48u64);
                } else {
                    assert(j == 7);
                    assert((8 * 7) as u64 == 56u64);
                }
            }
        }
        Some(v)
    }

    /// Consume a delimiter run that must not reach the end of the input:
    /// a trailing delimiter (after at least one consumed byte) is an error
    /// anchored at the start of the run.
    pub fn try_consume_delimiter(&mut self, delimiter: Delimiter) -> (r: Result<(), ParseError>)
        requires
            old(self).wf(),
            old(self).pos < old(self).input@.len(),
            delimiter.spec_matches(old(self).input@[old(self).pos as int]),
        ensures
            old(self).same_views(*final(self)),
            final(self).wf(),
            old(self).pos < final(self).pos,
            forall|i: int|
                old(self).pos <= i < final(self).pos ==> delimiter.spec_matches(
                    #[trigger] final(self).input@[i],
                ),
            match r {
                Ok(_) => final(self).pos < final(self).input@.len() && !delimiter.spec_matches(
                    final(self).input@[final(self).pos as int],
                ),
                Err(e) => final(self).pos == final(self).input@.len() && e.is_syntax_at(
                    old(self).pos as int,
                ),
            },
    {
        let start = self.pos;
        self.advance();
        self.consume_delimiter(delimiter);
        if self.pos == self.input.len() {
            Err(ParseError::Syntax(start, "Input may not end with a delimiter"))
        } else {
            Ok(())
        }
    }

    /// Whether the cursor stands on an ASCII digit.
    fn at_digit(&self) -> (r: bool)
        requires
            self.wf(),
        ensures
            r <==> (self.pos < self.input@.len() && is_digit_byte(self.input@[self.pos as int])),
    {
        if self.pos < self.input.len() {
            let b = self.input[self.pos];
            48 <= b && b <= 57
        } else {
            false
        }
    }

    /// Scan the whole part: the maximal digit run under the cursor. Leading
    /// zeros are dropped; at most `cap` digits are stored (the rest of the
    /// run is still consumed). Yields the number of digits stored.
    #[verifier::loop_isolation(false)]
    pub fn parse_whole(&mut self, digits: &mut Vec<u8>, cap: usize) -> (r: Whole)
        requires
            old(self).wf(),
            old(digits)@.len() == 0,
        ensures
            old(self).same_views(*final(self)),
            final(self).wf(),
            old(self).pos <= final(self).pos,
            final(self).pos == old(self).pos + digit_run(
                final(self).input@,
                old(self).pos as int,
            ),
            final(digits)@ == take_at_most(
                strip_zeros(
                    digit_vals(
                        final(self).input@.subrange(old(self).pos as int, final(self).pos as int),
                    ),
                ),
                cap as int,
            ),
            all_digits(final(digits)@),
            final(digits)@.len() <= cap,
            r.0 == final(digits)@.len(),
    {
        let ghost start = self.pos as int;
        let mut stripping: bool = true;
        let mut pushed: usize = 0;
        proof {
            assert(self.input@.subrange(start, start) =~= Seq::<u8>::empty());
            assert(digit_vals(Seq::<u8>::empty()) =~= Seq::<u8>::empty());
        }
        while self.at_digit()
            invariant
                self.wf(),
                old(self).same_views(*self),
                start <= self.pos <= self.input@.len(),
                forall|m: int| start <= m < self.pos ==> is_digit_byte(#[trigger] self.input@[m]),
                digits@ == take_at_most(
                    strip_zeros(digit_vals(self.input@.subrange(start, self.pos as int))),
                    cap as int,
                ),
                (stripping <==> strip_zeros(
                    digit_vals(self.input@.subrange(start, self.pos as int)),
                ).len() == 0),
                pushed == digits@.len(),
                pushed <= cap,
                all_digits(digits@),
            decreases self.input@.len() - self.pos,
        {
            let ghost p0 = self.pos as int;
            match self.parse_8_digits() {
                Some(v) => {
                    let mut j: usize = 0;
                    while j < 8
                        invariant
                            0 <= j <= 8,
                            self.pos == p0 + 8,
                            digits@ == take_at_most(
                                strip_zeros(digit_vals(self.input@.subrange(start, p0 + j))),
                                cap as int,
                            ),
                            (stripping <==> strip_zeros(
                                digit_vals(self.input@.subrange(start, p0 + j)),
                            ).len() == 0),
                            pushed == digits@.len(),
                            pushed <= cap,
                            all_digits(digits@),
                        decreases 8 - j,
                    {
                        let sh: u64 = (8 * j) as u64;
                        let d: u8 = ((v >> sh) & 0xff) as u8;
                        proof {
                            assert(packed_digit(v, j as int) == (v >> sh) & 0xff);
                            assert(d == self.input@[p0 + j] - 48);
                            assert(is_digit_byte(self.input@[p0 + j]));
                            let q = self.input@.subrange(start, p0 + j);
                            assert(self.input@.subrange(start, p0 + j + 1) =~= q.push(
                                self.input@[p0 + j],
                            ));
                            assert(digit_vals(q.push(self.input@[p0 + j])) =~= digit_vals(q).push(
                                d,
                            ));
                        }
                        push_digit_stripped(
                            digits,
                            &mut stripping,
                            &mut pushed,
                            cap,
                            d,
                            Ghost(digit_vals(self.input@.subrange(start, p0 + j))),
                        );
                        j = j + 1;
                    }
                },
                None => {
                    let b = self.input[self.pos];
                    let d: u8 = b - 48;
                    proof {
                        let q = self.input@.subrange(start, p0);
                        assert(self.input@.subrange(start, p0 + 1) =~= q.push(b));
                        assert(digit_vals(q.push(b)) =~= digit_vals(q).push(d));
                    }
                    push_digit_stripped(
                        digits,
                        &mut stripping,
                        &mut pushed,
                        cap,
                        d,
                        Ghost(digit_vals(self.input@.subrange(start, p0))),
                    );
                    self.advance();
                },
            }
            proof {
                assert forall|m: int| start <= m < self.pos implies is_digit_byte(
                    #[trigger] self.input@[m],
                ) by {
                    if m >= p0 {
                        assert(is_digit_byte(self.input@[p0 + (m - p0)]));
                    }
                }
            }
        }
        proof {
            lemma_digit_run_ends(self.input@, start, self.pos as int);
        }
        Whole(pushed)
    }

    /// Scan the fraction part: the maximal digit run under the cursor, with
    /// leading zeros preserved. At most `cap` digits are appended to the
    /// buffer (the rest of the run is still consumed). Yields the index
    /// range the fraction occupies in the buffer.
    #[verifier::loop_isolation(false)]
    pub fn parse_fract(&mut self, digits: &mut Vec<u8>, cap: usize) -> (r: Fract)
        requires
            old(self).wf(),
            all_digits(old(digits)@),
        ensures
            old(self).same_views(*final(self)),
            final(self).wf(),
            old(self).pos <= final(self).pos,
            final(self).pos == old(self).pos + digit_run(
                final(self).input@,
                old(self).pos as int,
            ),
            final(digits)@ == old(digits)@ + take_at_most(
                digit_vals(
                    final(self).input@.subrange(old(self).pos as int, final(self).pos as int),
                ),
                cap as int,
            ),
            all_digits(final(digits)@),
            final(digits)@.len() <= old(digits)@.len() + cap,
            r == (Fract(old(digits)@.len() as usize, final(digits)@.len() as usize)),
    {
        let ghost start = self.pos as int;
        let ghost base = digits@;
        let from: usize = digits.len();
        let mut pushed: usize = 0;
        proof {
            assert(self.input@.subrange(start, start) =~= Seq::<u8>::empty());
            assert(digit_vals(Seq::<u8>::empty()) =~= Seq::<u8>::empty());
            assert(digits@ =~= base + Seq::<u8>::empty());
        }
        while self.at_digit()
            invariant
                self.wf(),
                old(self).same_views(*self),
                start <= self.pos <= self.input@.len(),
                forall|m: int| start <= m < self.pos ==> is_digit_byte(#[trigger] self.input@[m]),
                digits@ == base + take_at_most(
                    digit_vals(self.input@.subrange(start, self.pos as int)),
                    cap as int,
                ),
                pushed == take_at_most(
                    digit_vals(self.input@.subrange(start, self.pos as int)),
                    cap as int,
                ).len(),
                pushed <= cap,
                all_digits(digits@),
            decreases self.input@.len() - self.pos,
        {
            let ghost p0 = self.pos as int;
            match self.parse_8_digits() {
                Some(v) => {
                    let mut j: usize = 0;
                    while j < 8
                        invariant
                            0 <= j <= 8,
                            self.pos == p0 + 8,
                            digits@ == base + take_at_most(
                                digit_vals(self.input@.subrange(start, p0 + j)),
                                cap as int,
                            ),
                            pushed == take_at_most(
                                digit_vals(self.input@.subrange(start, p0 + j)),
                                cap as int,
                            ).len(),
                            pushed <= cap,
                            all_digits(digits@),
                        decreases 8 - j,
                    {
                        let sh: u64 = (8 * j) as u64;
                        let d: u8 = ((v >> sh) & 0xff) as u8;
                        proof {
                            assert(packed_digit(v, j as int) == (v >> sh) & 0xff);
                            assert(d == self.input@[p0 + j] - 48);
                            assert(is_digit_byte(self.input@[p0 + j]));
                            let q = self.input@.subrange(start, p0 + j);
                            assert(self.input@.subrange(start, p0 + j + 1) =~= q.push(
                                self.input@[p0 + j],
                            ));
                            assert(digit_vals(q.push(self.input@[p0 + j])) =~= digit_vals(q).push(
                                d,
                            ));
                        }
                        push_digit_capped(
                            digits,
                            &mut pushed,
                            cap,
                            d,
                            Ghost(base),
                            Ghost(digit_vals(self.input@.subrange(start, p0 + j))),
                        );
                        j = j + 1;
                    }
                },
                None => {
                    let b = self.input[self.pos];
                    let d: u8 = b - 48;
                    proof {
                        let q = self.input@.subrange(start, p0);
                        assert(self.input@.subrange(start, p0 + 1) =~= q.push(b));
                        assert(digit_vals(q.push(b)) =~= digit_vals(q).push(d));
                    }
                    push_digit_capped(
                        digits,
                        &mut pushed,
                        cap,
                        d,
                        Ghost(base),
                        Ghost(digit_vals(self.input@.subrange(start, p0))),
                    );
                    self.advance();
                },
            }
            proof {
                assert forall|m: int| start <= m < self.pos implies is_digit_byte(
                    #[trigger] self.input@[m],
                ) by {
                    if m >= p0 {
                        assert(is_digit_byte(self.input@[p0 + (m - p0)]));
                    }
                }
            }
        }
        proof {
            lemma_digit_run_ends(self.input@, start, self.pos as int);
        }
        Fract(from, digits.len())
    }

    /// Scan the exponent value after the `e` marker: an optional sign and a
    /// mandatory digit run, accumulated exactly. A value outside the
    /// configured window (or outside 16 bits) is an overflow error; a
    /// missing digit run is a syntax error anchored after the sign.
    #[verifier::loop_isolation(false)]
    pub fn parse_exponent(&mut self) -> (r: Result<i16, ParseError>)
        requires
            old(self).wf(),
        ensures
            old(self).same_views(*final(self)),
            final(self).wf(),
            old(self).pos <= final(self).pos,
            ({
                let inp = final(self).input@;
                let p0 = old(self).pos as int;
                let signed = p0 < inp.len() && (inp[p0] == 43 || inp[p0] == 45);
                let negative = p0 < inp.len() && inp[p0] == 45;
                let p1 = if signed {
                    p0 + 1
                } else {
                    p0
                };
                let n = digit_run(inp, p1);
                let mag = seq_val(digit_vals(inp.subrange(p1, p1 + n))) as int;
                let v = if negative {
                    -mag
                } else {
                    mag
                };
                match r {
                    Ok(e) => {
                        let cfg = final(self).config;
                        n >= 1 && final(self).pos == p1 + n && e == v && cfg.min_exponent <= e
                            && e <= cfg.max_exponent
                    },
                    Err(e) => {
                        let cfg = final(self).config;
                        match e {
                            ParseError::Syntax(p, _) => n == 0 && p == p1,
                            ParseError::PositiveExponentOverflow => n >= 1 && v
                                > cfg.max_exponent as int,
                            ParseError::NegativeExponentOverflow => n >= 1 && v
                                < cfg.min_exponent as int,
                            _ => false,
                        }
                    },
                }
            }),
    {
        let ghost p0 = self.pos as int;
        let negative: bool;
        match self.parse_sign_is_negative() {
            Ok(neg) => {
                negative = neg;
            },
            Err(_) => {
                return Err(ParseError::Syntax(self.pos, "Expected exponent but reached end of input"));
            },
        }
        let ghost p1 = self.pos as int;
        let ghost inp = self.input@;
        let ghost n = digit_run(inp, p1);
        proof {
            lemma_digit_run_nonneg(inp, p1);
        }
        if !self.at_digit() {
            proof {
                assert(n == 0);
            }
            return Err(ParseError::Syntax(self.pos, "The exponent must have at least one digit"));
        }
        let mut exponent: i16 = 0;
        while self.at_digit()
            invariant
                self.wf(),
                old(self).same_views(*self),
                p1 <= self.pos <= self.input@.len(),
                forall|m: int| p1 <= m < self.pos ==> is_digit_byte(#[trigger] self.input@[m]),
                negative ==> exponent as int == -(seq_val(
                    digit_vals(inp.subrange(p1, self.pos as int)),
                ) as int),
                !negative ==> exponent as int == seq_val(
                    digit_vals(inp.subrange(p1, self.pos as int)),
                ) as int,
            decreases self.input@.len() - self.pos,
        {
            let ghost m = self.pos as int;
            let b = self.input[self.pos];
            let d = b - 48;
            let ghost q = digit_vals(inp.subrange(p1, m));
            proof {
                assert(inp.subrange(p1, m + 1) =~= inp.subrange(p1, m).push(b));
                assert(digit_vals(inp.subrange(p1, m).push(b)) =~= q.push(d));
                assert(q.push(d).drop_last() =~= q);
                assert(seq_val(q.push(d)) == seq_val(q) * 10 + d);
            }
            if negative {
                let next: i32 = exponent as i32 * 10 - d as i32;
                if next < -32768 {
                    proof {
                        lemma_digit_run_at_least(inp, p1, m + 1);
                        lemma_exponent_run_overflow(inp, p1, m + 1, n);
                        assert(seq_val(q.push(d)) > 32767);
                    }
                    return Err(ParseError::NegativeExponentOverflow);
                }
                exponent = next as i16;
            } else {
                let next: i32 = exponent as i32 * 10 + d as i32;
                if next > 32767 {
                    proof {
                        lemma_digit_run_at_least(inp, p1, m + 1);
                        lemma_exponent_run_overflow(inp, p1, m + 1, n);
                        assert(seq_val(q.push(d)) > 32767);
                    }
                    return Err(ParseError::PositiveExponentOverflow);
                }
                exponent = next as i16;
            }
            self.advance();
            proof {
                assert forall|mm: int| p1 <= mm < self.pos implies is_digit_byte(
                    #[trigger] self.input@[mm],
                ) by {
                    if mm == m {
                        assert(is_digit_byte(b));
                    }
                }
            }
        }
        proof {
            lemma_digit_run_ends(inp, p1, self.pos as int);
            assert(self.pos == p1 + n);
        }
        if exponent > self.config.max_exponent {
            return Err(ParseError::PositiveExponentOverflow);
        }
        if exponent < self.config.min_exponent {
            return Err(ParseError::NegativeExponentOverflow);
        }
        Ok(exponent)
    }

    /// Whether the bytes at `at` equal `w`.
    pub fn matches_at(&self, at: usize, w: &[u8]) -> (r: bool)
        requires
            self.wf(),
        ensures
            r <==> (at + w@.len() <= self.input@.len() && self.input@.subrange(
                at as int,
                at + w@.len(),
            ) == w@),
    {
        if at > self.input.len() || w.len() > self.input.len() - at {
            return false;
        }
        let mut i: usize = 0;
        while i < w.len()
            invariant
                self.wf(),
                0 <= i <= w@.len(),
                at + w@.len() <= self.input@.len(),
                forall|m: int| 0 <= m < i ==> self.input@[at + m] == #[trigger] w@[m],
            decreases w@.len() - i,
        {
            if self.input[at + i] != w[i] {
                proof {
                    let sub = self.input@.subrange(at as int, at + w@.len());
                    assert(sub[i as int] != w@[i as int]);
                }
                return false;
            }
            i = i + 1;
        }
        proof {
            assert(self.input@.subrange(at as int, at + w@.len()) =~= w@);
        }
        true
    }

    /// Scan the time-unit identifier and look it up.
    ///
    /// When several durations may follow each other, the identifier runs to
    /// the next delimiter, digit or the end, and an empty identifier simply
    /// means "use the default". Otherwise the whole remainder is the
    /// identifier. An identifier the table does not know is an error
    /// anchored at its first byte.
    #[verifier::loop_isolation(false)]
    pub fn parse_time_unit(&mut self) -> (r: Result<Option<(TimeUnit, Multiplier)>, ParseError>)
        requires
            old(self).wf(),
            old(self).pos < old(self).input@.len(),
        ensures
            old(self).same_views(*final(self)),
            final(self).wf(),
            old(self).pos <= final(self).pos,
            ({
                let inp = final(self).input@;
                let p0 = old(self).pos as int;
                match unit_scan_delimiter(*final(self).config) {
                    Some(md) => {
                        let n = token_run(inp, p0, md);
                        let ident = inp.subrange(p0, p0 + n);
                        &&& final(self).pos == p0 + n
                        &&& match r {
                            Ok(Some(um)) => n >= 1 && final(self).time_units.spec_get(ident)
                                == Some(um),
                            Ok(None) => n == 0,
                            Err(e) => n >= 1 && final(self).time_units.spec_get(ident) is None
                                && e.is_time_unit_at(p0),
                        }
                    },
                    None => {
                        let ident = inp.skip(p0);
                        &&& final(self).pos == inp.len()
                        &&& match r {
                            Ok(Some(um)) => final(self).time_units.spec_get(ident) == Some(um),
                            Ok(None) => false,
                            Err(e) => final(self).time_units.spec_get(ident) is None
                                && e.is_time_unit_at(p0),
                        }
                    },
                }
            }),
    {
        let start = self.pos;
        let scan_delim = match self.config.parse_multiple_delimiter {
            Some(md) => Some(md),
            None => self.config.allow_ago,
        };
        proof {
            assert(scan_delim == unit_scan_delimiter(*self.config));
        }
        match scan_delim {
            Some(md) => {
                while self.pos < self.input.len() && !md.matches(self.input[self.pos])
                    && !(48 <= self.input[self.pos] && self.input[self.pos] <= 57)
                    invariant
                        self.wf(),
                        old(self).same_views(*self),
                        start <= self.pos <= self.input@.len(),
                        forall|m: int|
                            start <= m < self.pos ==> !md.spec_matches(#[trigger] self.input@[m])
                                && !is_digit_byte(self.input@[m]),
                    decreases self.input@.len() - self.pos,
                {
                    self.pos = self.pos + 1;
                }
                proof {
                    lemma_token_run_ends(self.input@, start as int, self.pos as int, md);
                }
                if self.pos == start {
                    return Ok(None);
                }
                let ident = &self.input[start..self.pos];
                proof {
                    assert(ident@ =~= self.input@.subrange(start as int, self.pos as int));
                }
                match self.time_units.get(ident) {
                    Some(um) => Ok(Some(um)),
                    None => Err(ParseError::TimeUnit(start, "Invalid time unit")),
                }
            },
            None => {
                let ident = &self.input[start..self.input.len()];
                proof {
                    assert(ident@ =~= self.input@.skip(start as int));
                }
                let looked = self.time_units.get(ident);
                self.finish();
                match looked {
                    Some(um) => Ok(Some(um)),
                    None => Err(ParseError::TimeUnit(start, "Invalid time unit")),
                }
            },
        }
    }

    /// Whether `b` equals the lowercase letter `lower`, ignoring ASCII case.
    fn eq_ic(b: u8, lower: u8) -> (r: bool)
        requires
            97 <= lower <= 122,
        ensures
            r <==> (b == lower || b == lower - 32),
    {
        b == lower || b == lower - 32
    }

    /// Scan what follows the three bytes `inf`: nothing (at the end of the
    /// input), a segment boundary, or the five bytes `inity`
    /// (case-insensitively) followed by the end or a segment boundary. A
    /// mismatch inside `inity` is an error anchored at the offending byte.
    #[verifier::loop_isolation(false)]
    pub fn parse_infinity_remainder(&mut self) -> (r: Result<(), ParseError>)
        requires
            old(self).wf(),
        ensures
            old(self).same_views(*final(self)),
            final(self).wf(),
            old(self).pos <= final(self).pos,
            r matches Err(e) ==> e is Syntax,
            ({
                let inp = final(self).input@;
                let cfg = *final(self).config;
                let p0 = old(self).pos as int;
                let len = inp.len() as int;
                let pos1 = final(self).pos as int;
                let at_boundary = p0 < len && (match cfg.parse_multiple_delimiter {
                    Some(md) => md.spec_matches(inp[p0]),
                    None => false,
                });
                &&& (p0 == len ==> r == Ok::<(), ParseError>(()) && pos1 == p0)
                &&& (at_boundary ==> boundary_consumed(cfg, inp, p0, pos1, r))
                &&& ((p0 < len && !at_boundary) ==> ({
                    let k = inity_prefix(inp, p0, 0);
                    if k == 5 {
                        let q = p0 + 5;
                        let at_boundary2 = q < len && (match cfg.parse_multiple_delimiter {
                            Some(md) => md.spec_matches(inp[q]),
                            None => false,
                        });
                        &&& (q == len ==> r == Ok::<(), ParseError>(()) && pos1 == q)
                        &&& (at_boundary2 ==> boundary_consumed(cfg, inp, q, pos1, r))
                        &&& ((q < len && !at_boundary2) ==> match cfg.parse_multiple_delimiter {
                            Some(_) => match r {
                                Ok(_) => false,
                                Err(e) => e.is_syntax_at(q),
                            },
                            None => r == Ok::<(), ParseError>(()) && pos1 == q,
                        })
                    } else {
                        match r {
                            Ok(_) => false,
                            Err(e) => e.is_syntax_at(p0 + k),
                        }
                    }
                }))
            }),
    {
        let multiple = self.config.parse_multiple_delimiter;
        match self.peek_byte() {
            None => {
                return Ok(());
            },
            Some(b) => {
                match multiple {
                    Some(md) => {
                        if md.matches(b) {
                            return self.try_consume_delimiter(md);
                        }
                    },
                    None => {},
                }
            },
        }
        // the rest of the word: `inity`
        let ghost p0 = self.pos as int;
        let mut i: usize = 0;
        while i < 5
            invariant
                self.wf(),
                old(self).same_views(*self),
                0 <= i <= 5,
                self.pos == p0 + i,
                p0 == old(self).pos,
                inity_prefix(self.input@, p0, i as int) == inity_prefix(self.input@, p0, 0),
            decreases 5 - i,
        {
            let lower: u8 = if i == 0 {
                105
            } else if i == 1 {
                110
            } else if i == 2 {
                105
            } else if i == 3 {
                116
            } else {
                121
            };
            proof {
                assert(lower == inity_byte(i as int));
            }
            match self.peek_byte() {
                Some(c) => {
                    if Self::eq_ic(c, lower) {
                        proof {
                            assert(ic_eq(self.input@[p0 + i], inity_byte(i as int)));
                            assert(inity_prefix(self.input@, p0, i as int) == inity_prefix(
                                self.input@,
                                p0,
                                i + 1,
                            ));
                        }
                        self.advance();
                    } else {
                        proof {
                            assert(!ic_eq(self.input@[p0 + i], inity_byte(i as int)));
                            assert(inity_prefix(self.input@, p0, i as int) == i);
                        }
                        return Err(ParseError::Syntax(self.pos, "Invalid infinity"));
                    }
                },
                None => {
                    proof {
                        assert(inity_prefix(self.input@, p0, i as int) == i);
                    }
                    return Err(
                        ParseError::Syntax(self.pos, "Premature end of input parsing infinity"),
                    );
                },
            }
            i = i + 1;
        }
        proof {
            assert(inity_prefix(self.input@, p0, 5) == 5);
            assert(inity_prefix(self.input@, p0, 0) == 5);
        }
        match self.peek_byte() {
            None => Ok(()),
            Some(b) => {
                match multiple {
                    Some(md) => {
                        if md.matches(b) {
                            self.try_consume_delimiter(md)
                        } else {
                            Err(ParseError::Syntax(self.pos, "Expected a delimiter after infinity"))
                        }
                    },
                    None => Ok(()),
                }
            },
        }
    }

    /// After a complete segment, consume the delimiter run separating it
    /// from the next one, optionally together with a conjunction word that
    /// is itself followed by a delimiter run. The input must not end inside
    /// the boundary.
    #[verifier::loop_isolation(false)]
    pub fn consume_segment_boundary(&mut self, md: Delimiter) -> (r: Result<(), ParseError>)
        requires
            old(self).wf(),
            old(self).pos < old(self).input@.len(),
            md.spec_matches(old(self).input@[old(self).pos as int]),
        ensures
            old(self).same_views(*final(self)),
            final(self).wf(),
            old(self).pos < final(self).pos,
            r is Ok ==> final(self).pos < final(self).input@.len(),
            r matches Err(e) ==> e is Syntax,
            (final(self).config.parse_multiple_conjunctions is None && (forall|i: int|
                old(self).pos <= i < final(self).input@.len() ==> md.spec_matches(
                    #[trigger] final(self).input@[i],
                ))) ==> match r {
                Ok(_) => false,
                Err(e) => e.is_syntax_at(old(self).pos as int),
            },
    {
        match self.try_consume_delimiter(md) {
            Ok(_) => {},
            Err(e) => {
                return Err(e);
            },
        }
        match self.config.parse_multiple_conjunctions {
            Some(conjs) => {
                let mut ci: usize = 0;
                let ghost mid = *self;
                while ci < conjs.len()
                    invariant
                        self.wf(),
                        old(self).same_views(*self),
                        *self == mid,
                        old(self).pos < self.pos,
                        self.pos < self.input@.len(),
                    decreases conjs@.len() - ci,
                {
                    let w: &[u8] = conjs[ci];
                    if w.len() > 0 && self.matches_at(self.pos, w) {
                        let after = self.pos + w.len();
                        if after < self.input.len() && md.matches(self.input[after]) {
                            self.advance_by(w.len());
                            return self.try_consume_delimiter(md);
                        }
                        if after == self.input.len() {
                            return Err(
                                ParseError::Syntax(
                                    self.pos,
                                    "Input may not end with a conjunction",
                                ),
                            );
                        }
                    }
                    ci = ci + 1;
                }
                Ok(())
            },
            None => Ok(()),
        }
    }

    /// Scan the whole part into a fresh buffer, choosing the buffer bound
    /// from the configured smallest exponent so that any digit dropped past
    /// the bound could only feed a result that saturates anyway.
    fn scan_whole_part(&mut self, digits: &mut Vec<u8>) -> (r: Whole)
        requires
            old(self).wf(),
            old(digits)@.len() == 0,
        ensures
            old(self).same_views(*final(self)),
            final(self).wf(),
            old(self).pos <= final(self).pos,
            all_digits(final(digits)@),
            final(digits)@.len() <= 33000,
            r.0 == final(digits)@.len(),
            final(digits)@.len() > 0 ==> final(digits)@[0] != 0,
            final(self).pos == old(self).pos + digit_run(
                final(self).input@,
                old(self).pos as int,
            ),
            final(digits)@ == take_at_most(
                strip_zeros(
                    digit_vals(
                        final(self).input@.subrange(old(self).pos as int, final(self).pos as int),
                    ),
                ),
                spec_whole_cap(*final(self).config, final(self).input@.len() - old(self).pos),
            ),
    {
        let am: i64 = self.config.min_exponent as i64;
        let absmin: usize = if am < 0 {
            (0 - am) as usize
        } else {
            am as usize
        };
        let remaining = self.input.len() - self.pos;
        let mut cap: usize = absmin + 32;
        if remaining < cap {
            cap = remaining;
        }
        proof {
            assert(cap == spec_whole_cap(*self.config, self.input@.len() - self.pos));
        }
        let ghost pw_start = self.pos as int;
        let w = self.parse_whole(digits, cap);
        proof {
            let ws = digit_vals(self.input@.subrange(pw_start, self.pos as int));
            if digits@.len() > 0 {
                crate::arith::lemma_strip_zeros_head(ws);
                assert(digits@[0] == strip_zeros(ws)[0]);
            }
        }
        w
    }

    /// Scan the fraction part into the buffer, choosing the extra capacity
    /// from the configured largest exponent so that a digit dropped past it
    /// could never reach the nanosecond window.
    fn scan_fract_part(&mut self, digits: &mut Vec<u8>) -> (r: Fract)
        requires
            old(self).wf(),
            all_digits(old(digits)@),
            old(digits)@.len() <= 33000,
        ensures
            old(self).same_views(*final(self)),
            final(self).wf(),
            old(self).pos <= final(self).pos,
            all_digits(final(digits)@),
            final(digits)@.len() <= 0x10_0000,
            old(digits)@.len() <= final(digits)@.len(),
            forall|i: int| 0 <= i < old(digits)@.len() ==> final(digits)@[i] == old(digits)@[i],
            r == (Fract(old(digits)@.len() as usize, final(digits)@.len() as usize)),
            final(self).pos == old(self).pos + digit_run(
                final(self).input@,
                old(self).pos as int,
            ),
            final(digits)@ == old(digits)@ + take_at_most(
                digit_vals(
                    final(self).input@.subrange(old(self).pos as int, final(self).pos as int),
                ),
                spec_fract_cap(*final(self).config, final(self).input@.len() - old(self).pos),
            ),
    {
        let mx: i64 = self.config.max_exponent as i64;
        let mxu: usize = if mx < 0 {
            0
        } else {
            mx as usize
        };
        let remaining = self.input.len() - self.pos;
        let mut cap2: usize = mxu + 25;
        if remaining < cap2 {
            cap2 = remaining;
        }
        proof {
            assert(cap2 == spec_fract_cap(*self.config, self.input@.len() - self.pos));
        }
        self.parse_fract(digits, cap2)
    }

    /// Look for a trailing `ago` keyword: a run of `ad` bytes, the three
    /// bytes `ago`, and then the end of the input or (when several
    /// durations may follow) a delimiter. Consumed only when all of that
    /// matches; reports whether the sign must flip.
    fn try_consume_ago(&mut self, ad: Delimiter) -> (r: bool)
        requires
            old(self).wf(),
        ensures
            old(self).same_views(*final(self)),
            final(self).wf(),
            old(self).pos <= final(self).pos,
    {
        if self.pos >= self.input.len() || !ad.matches(self.input[self.pos]) {
            return false;
        }
        let mut j: usize = self.pos;
        while j < self.input.len() && ad.matches(self.input[j])
            invariant
                self.wf(),
                self.pos <= j <= self.input@.len(),
            decreases self.input@.len() - j,
        {
            j = j + 1;
        }
        if j == self.pos {
            return false;
        }
        let ago_word: [u8; 3] = [97, 103, 111];
        if self.matches_at(j, ago_word.as_slice()) {
            let after = j + 3;
            let boundary_ok = after == self.input.len() || (match self
                .config
                .parse_multiple_delimiter {
                Some(md) => md.matches(self.input[after]),
                None => false,
            });
            if boundary_ok {
                self.pos = after;
                return true;
            }
        }
        false
    }

    /// Scan one duration out of the input.
    ///
    /// Recognizes `Sign? ( Infinity | Number ) Delim? Unit? Ago?` according
    /// to the configuration and accumulates it into a representation. The
    /// second component of a success tells whether another duration follows
    /// (only possible when parsing multiple durations is enabled); when it
    /// is false the whole input has been consumed.
    #[verifier::rlimit(100)]
    pub fn parse(&mut self) -> (r: Result<(DurationRepr, bool), ParseError>)
        requires
            old(self).wf(),
        ensures
            old(self).same_views(*final(self)),
            final(self).wf(),
            old(self).pos <= final(self).pos,
            match r {
                Ok(p) => {
                    let cfg = final(self).config;
                    &&& p.0.wf()
                    &&& (p.0.exponent == 0 || (cfg.min_exponent <= p.0.exponent
                        && p.0.exponent <= cfg.max_exponent))
                    &&& (!p.1 ==> final(self).pos == final(self).input@.len())
                    &&& (p.1 ==> final(self).pos < final(self).input@.len()
                        && cfg.parse_multiple_delimiter is Some)
                    &&& (p.0.whole_len() > 0 ==> p.0.digits@[0] != 0)
                },
                Err(e) => e == ParseError::Empty <==> old(self).pos == old(self).input@.len(),
            },
            r is Ok ==> old(self).pos < old(self).input@.len(),
            ({
                // exact behavior on plain number shapes: an optional sign,
                // digits, optionally a point and digits. The scan of such an
                // input cannot fail and yields precisely those digit
                // windows; the forbidden-part errors are anchored exactly.
                let inp = final(self).input@;
                let cfg = *final(self).config;
                let p0 = old(self).pos as int;
                let len = inp.len() as int;
                let signed = p0 < len && (inp[p0] == 43 || inp[p0] == 45);
                let negative = p0 < len && inp[p0] == 45;
                let p1 = if signed {
                    p0 + 1
                } else {
                    p0
                };
                let n1 = digit_run(inp, p1);
                let dot = p1 + n1;
                let n2 = if dot + 1 <= len {
                    digit_run(inp, dot + 1)
                } else {
                    0
                };
                let whole_part = take_at_most(
                    strip_zeros(digit_vals(inp.subrange(p1, dot))),
                    spec_whole_cap(cfg, len - p1),
                );
                // a decimal number filling the whole input
                &&& (p1 < len && is_digit_byte(inp[p1]) && dot < len && inp[dot] == 46 && n2 >= 1
                    && dot + 1 + n2 == len && !cfg.disable_fraction) ==> match r {
                    Ok(p) => {
                        &&& !p.1
                        &&& p.0.is_negative == negative
                        &&& !p.0.is_infinite
                        &&& p.0.exponent == 0
                        &&& p.0.unit == cfg.default_unit
                        &&& p.0.multiplier == Multiplier(1, 0)
                        &&& p.0.whole is Some
                        &&& p.0.fract is Some
                        &&& p.0.whole_len() == whole_part.len()
                        &&& p.0.digits@ == whole_part + take_at_most(
                            digit_vals(inp.subrange(dot + 1, len)),
                            spec_fract_cap(cfg, len - dot - 1),
                        )
                    },
                    Err(_) => false,
                }
                // a whole number filling the whole input
                &&& (p1 < len && is_digit_byte(inp[p1]) && dot == len) ==> match r {
                    Ok(p) => {
                        &&& !p.1
                        &&& p.0.is_negative == negative
                        &&& !p.0.is_infinite
                        &&& p.0.exponent == 0
                        &&& p.0.unit == cfg.default_unit
                        &&& p.0.multiplier == Multiplier(1, 0)
                        &&& p.0.whole is Some
                        &&& p.0.fract is None
                        &&& p.0.whole_len() == whole_part.len()
                        &&& p.0.digits@ == whole_part
                    },
                    Err(_) => false,
                }
                // a point with no digit after it and none before: an error
                // anchored at the point
                &&& (p1 < len && inp[p1] == 46 && !cfg.disable_fraction && (p1 + 1 == len
                    || !is_digit_byte(inp[p1 + 1]))) ==> match r {
                    Ok(_) => false,
                    Err(e) => e.is_syntax_at(p1),
                }
                // a point while fractions are forbidden: an error anchored
                // at the point
                &&& (p1 < len && (is_digit_byte(inp[p1]) || inp[p1] == 46) && dot < len
                    && inp[dot] == 46 && cfg.disable_fraction) ==> match r {
                    Ok(_) => false,
                    Err(e) => e.is_syntax_at(dot),
                }
                // an exponent marker right after the whole digits while
                // exponents are forbidden: an error anchored at the marker
                &&& (p1 < len && is_digit_byte(inp[p1]) && dot < len && (inp[dot] == 101
                    || inp[dot] == 69) && cfg.disable_exponent) ==> match r {
                    Ok(_) => false,
                    Err(e) => e.is_syntax_at(dot),
                }
                // an exponent marker right after the fraction digits while
                // exponents are forbidden: an error anchored at the marker
                &&& (p1 < len && is_digit_byte(inp[p1]) && dot < len && inp[dot] == 46 && n2 >= 1
                    && !cfg.disable_fraction && dot + 1 + n2 < len && (inp[dot + 1 + n2] == 101
                    || inp[dot + 1 + n2] == 69) && cfg.disable_exponent) ==> match r {
                    Ok(_) => false,
                    Err(e) => e.is_syntax_at(dot + 1 + n2),
                }
                // a whole number followed only by delimiter bytes: the
                // input may not end inside a segment boundary; the error is
                // anchored at the run's start
                &&& (p1 < len && is_digit_byte(inp[p1]) && dot < len && cfg.allow_delimiter
                    is None && cfg.allow_ago is None && cfg.parse_multiple_conjunctions is None
                    && !(inp[dot] == 101 || inp[dot] == 69 || inp[dot] == 46) && (match
                    cfg.parse_multiple_delimiter {
                    Some(md) => forall|i: int|
                        dot <= i < len ==> md.spec_matches(#[trigger] inp[i]),
                    None => false,
                })) ==> match r {
                    Ok(_) => false,
                    Err(e) => e.is_syntax_at(dot),
                }
                // the same for a decimal number
                &&& (p1 < len && is_digit_byte(inp[p1]) && dot < len && inp[dot] == 46 && n2 >= 1
                    && !cfg.disable_fraction && dot + 1 + n2 < len && cfg.allow_delimiter is None
                    && cfg.allow_ago is None && cfg.parse_multiple_conjunctions is None && !(
                inp[dot + 1 + n2] == 101 || inp[dot + 1 + n2] == 69) && (match
                    cfg.parse_multiple_delimiter {
                    Some(md) => forall|i: int|
                        dot + 1 + n2 <= i < len ==> md.spec_matches(#[trigger] inp[i]),
                    None => false,
                })) ==> match r {
                    Ok(_) => false,
                    Err(e) => e.is_syntax_at(dot + 1 + n2),
                }
                // an exponent right after the whole digits whose value falls
                // outside the configured window: the dedicated overflow error
                &&& (p1 < len && is_digit_byte(inp[p1]) && dot < len && (inp[dot] == 101
                    || inp[dot] == 69) && !cfg.disable_exponent && cfg.min_exponent
                    <= cfg.max_exponent) ==> ({
                    let esigned = dot + 1 < len && (inp[dot + 1] == 43 || inp[dot + 1] == 45);
                    let eneg = dot + 1 < len && inp[dot + 1] == 45;
                    let ep = if esigned {
                        dot + 2
                    } else {
                        dot + 1
                    };
                    let nrun = digit_run(inp, ep);
                    let mag = seq_val(digit_vals(inp.subrange(ep, ep + nrun))) as int;
                    let v = if eneg {
                        -mag
                    } else {
                        mag
                    };
                    nrun >= 1 ==> {
                        &&& (v > cfg.max_exponent ==> r == Err::<(DurationRepr, bool),
                            ParseError,
                        >(ParseError::PositiveExponentOverflow))
                        &&& (v < cfg.min_exponent ==> r == Err::<(DurationRepr, bool),
                            ParseError,
                        >(ParseError::NegativeExponentOverflow))
                    }
                })
            }),
    {
        if self.pos >= self.input.len() {
            return Err(ParseError::Empty);
        }
        let multiple = self.config.parse_multiple_delimiter;
        let mut repr = DurationRepr::empty(self.config.default_unit);
        match self.parse_sign_is_negative() {
            Ok(neg) => {
                repr.is_negative = neg;
            },
            Err(e) => {
                return Err(e);
            },
        }
        let mut digits: Vec<u8> = Vec::new();
        // infinity or the whole number part
        if self.at_digit() {
            let w = self.scan_whole_part(&mut digits);
            repr.whole = Some(w);
        } else if self.pos < self.input.len() && self.input[self.pos] == 46 {
            // a leading decimal point: handled by the fraction stage
        } else {
            let has_inf = !self.config.disable_infinity && self.input.len() - self.pos >= 3
                && Self::eq_ic(self.input[self.pos], 105) && Self::eq_ic(
                self.input[self.pos + 1],
                110,
            ) && Self::eq_ic(self.input[self.pos + 2], 102);
            if has_inf {
                self.advance_by(3);
                match self.parse_infinity_remainder() {
                    Ok(_) => {},
                    Err(e) => {
                        return Err(e);
                    },
                }
                repr.is_infinite = true;
                if self.pos == self.input.len() {
                    return Ok((repr, false));
                }
                match multiple {
                    Some(_) => {
                        return Ok((repr, true));
                    },
                    None => {
                        return Err(ParseError::Syntax(self.pos, "Expected end of input"));
                    },
                }
            } else if self.config.number_is_optional {
                // no number: an implicit `1` is evaluated later
            } else if self.pos == self.input.len() {
                return Err(ParseError::Syntax(self.pos, "Unexpected end of input"));
            } else {
                return Err(ParseError::Syntax(self.pos, "Invalid input"));
            }
        }
        // the fraction part
        if self.pos < self.input.len() && self.input[self.pos] == 46 {
            if self.config.disable_fraction {
                return Err(ParseError::Syntax(self.pos, "No fraction allowed"));
            }
            let ghost dot = self.pos as int;
            self.advance();
            if self.at_digit() {
                let f = self.scan_fract_part(&mut digits);
                repr.fract = Some(f);
            } else if repr.whole.is_none() {
                // anchor the error at the decimal point
                return Err(
                    ParseError::Syntax(
                        self.pos - 1,
                        "Either the whole number part or the fraction must be present",
                    ),
                );
            }
        }
        repr.digits = digits;
        proof {
            assert(repr.wf());
        }
        self.parse_tail(repr)
    }

    /// Scan everything that may follow the number of a segment: an exponent,
    /// delimiters, a time unit, a trailing `ago`, and the segment end.
    #[verifier::rlimit(100)]
    fn parse_tail(&mut self, repr: DurationRepr) -> (r: Result<(DurationRepr, bool), ParseError>)
        requires
            old(self).wf(),
            repr.wf(),
            !repr.is_infinite,
            repr.exponent == 0,
        ensures
            old(self).same_views(*final(self)),
            final(self).wf(),
            old(self).pos <= final(self).pos,
            match r {
                Ok(p) => {
                    let cfg = final(self).config;
                    &&& p.0.wf()
                    &&& (p.0.exponent == 0 || (cfg.min_exponent <= p.0.exponent
                        && p.0.exponent <= cfg.max_exponent))
                    &&& (!p.1 ==> final(self).pos == final(self).input@.len())
                    &&& (p.1 ==> final(self).pos < final(self).input@.len()
                        && cfg.parse_multiple_delimiter is Some)
                    &&& (p.0.whole_len() > 0 && repr.digits@[0] != 0 ==> p.0.digits@[0] != 0)
                    &&& p.0.digits == repr.digits
                    &&& p.0.whole == repr.whole
                },
                Err(e) => e != ParseError::Empty,
            },
            old(self).pos == old(self).input@.len() ==> r == Ok::<(DurationRepr, bool),
                ParseError,
            >((repr, false)),
            ({
                let inp = final(self).input@;
                let cfg = *final(self).config;
                let p = old(self).pos as int;
                (p < inp.len() && (inp[p] == 101 || inp[p] == 69) && cfg.disable_exponent)
                    ==> match r {
                    Ok(_) => false,
                    Err(e) => e.is_syntax_at(p),
                }
            }),
            ({
                // an exponent whose value falls outside the configured
                // window is the dedicated overflow error
                let inp = final(self).input@;
                let cfg = *final(self).config;
                let p = old(self).pos as int;
                let len = inp.len() as int;
                let marker = p < len && (inp[p] == 101 || inp[p] == 69);
                let signed = p + 1 < len && (inp[p + 1] == 43 || inp[p + 1] == 45);
                let negative = p + 1 < len && inp[p + 1] == 45;
                let p1 = if signed {
                    p + 2
                } else {
                    p + 1
                };
                let nrun = digit_run(inp, p1);
                let mag = seq_val(digit_vals(inp.subrange(p1, p1 + nrun))) as int;
                let v = if negative {
                    -mag
                } else {
                    mag
                };
                (marker && !cfg.disable_exponent && cfg.min_exponent <= cfg.max_exponent
                    && repr.has_number() && nrun >= 1) ==> {
                    &&& (v > cfg.max_exponent ==> r == Err::<(DurationRepr, bool), ParseError>(
                        ParseError::PositiveExponentOverflow,
                    ))
                    &&& (v < cfg.min_exponent ==> r == Err::<(DurationRepr, bool), ParseError>(
                        ParseError::NegativeExponentOverflow,
                    ))
                }
            }),
            ({
                // when only delimiter bytes remain, the input ends inside a
                // segment boundary: an error anchored at the run's start
                let inp = final(self).input@;
                let cfg = *final(self).config;
                let p = old(self).pos as int;
                (p < inp.len() && cfg.allow_delimiter is None && cfg.allow_ago is None
                    && cfg.parse_multiple_conjunctions is None && !(
                inp[p] == 101 || inp[p] == 69) && (match cfg.parse_multiple_delimiter {
                    Some(md) => forall|i: int|
                        p <= i < inp.len() ==> md.spec_matches(#[trigger] inp[i]),
                    None => false,
                })) ==> match r {
                    Ok(_) => false,
                    Err(e) => e.is_syntax_at(p),
                }
            }),
    {
        let mut repr = repr;
        let multiple = self.config.parse_multiple_delimiter;
        if self.pos == self.input.len() {
            return Ok((repr, false));
        }
        // the exponent part
        let b = self.input[self.pos];
        if b == 101 || b == 69 {
            if self.config.disable_exponent {
                return Err(ParseError::Syntax(self.pos, "No exponent allowed"));
            }
            if repr.whole.is_none() && repr.fract.is_none() && !self.config.number_is_optional {
                return Err(ParseError::Syntax(self.pos, "Exponent without a number"));
            }
            self.advance();
            match self.parse_exponent() {
                Ok(e) => {
                    repr.exponent = e;
                },
                Err(e) => {
                    proof {
                        let inp = self.input@;
                        let p = old(self).pos as int;
                        let len = inp.len() as int;
                        let signed = p + 1 < len && (inp[p + 1] == 43 || inp[p + 1] == 45);
                        let negative = p + 1 < len && inp[p + 1] == 45;
                        let p1 = if signed {
                            p + 2
                        } else {
                            p + 1
                        };
                        let nrun = digit_run(inp, p1);
                        let mag = seq_val(digit_vals(inp.subrange(p1, p1 + nrun))) as int;
                        let v = if negative {
                            -mag
                        } else {
                            mag
                        };
                        if nrun >= 1 && self.config.min_exponent <= self.config.max_exponent {
                            assert(!(e is Syntax));
                            if v > self.config.max_exponent {
                                assert(e != ParseError::NegativeExponentOverflow);
                                assert(e == ParseError::PositiveExponentOverflow);
                            }
                            if v < self.config.min_exponent {
                                assert(e == ParseError::NegativeExponentOverflow);
                            }
                        }
                    }
                    return Err(e);
                },
            }
            if self.pos == self.input.len() {
                return Ok((repr, false));
            }
        }
        // delimiters between the number and the time unit
        match self.config.allow_delimiter {
            Some(d) => {
                if d.matches(self.input[self.pos]) {
                    match self.try_consume_delimiter(d) {
                        Ok(_) => {},
                        Err(e) => {
                            return Err(e);
                        },
                    }
                }
            },
            None => {},
        }
        // the time unit
        if !self.time_units.is_empty() {
            match self.parse_time_unit() {
                Ok(Some(um)) => {
                    repr.unit = um.0;
                    repr.multiplier = um.1;
                },
                Ok(None) => {},
                Err(e) => {
                    return Err(e);
                },
            }
        } else {
            match multiple {
                Some(_) => {},
                None => {
                    return Err(ParseError::TimeUnit(self.pos, "No time units allowed"));
                },
            }
        }
        // a trailing `ago` keyword negates the duration
        match self.config.allow_ago {
            Some(ad) => {
                if self.try_consume_ago(ad) {
                    repr.is_negative = !repr.is_negative;
                }
            },
            None => {},
        }
        // the end of the segment
        if self.pos == self.input.len() {
            return Ok((repr, false));
        }
        match multiple {
            Some(md) => {
                if md.matches(self.input[self.pos]) {
                    match self.consume_segment_boundary(md) {
                        Ok(_) => Ok((repr, true)),
                        Err(e) => Err(e),
                    }
                } else {
                    Ok((repr, true))
                }
            },
            None => Err(ParseError::Syntax(self.pos, "Expected end of input")),
        }
    }
}

} // verus!
