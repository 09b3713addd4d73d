//! Parser for the provider's rate-limit reset header.
//!
//! The header value is a run of `<number><unit>` tokens with no separators,
//! e.g. `"6m10s"`, `"500ms"`, `"1.5h"`. Units are `h`, `m`, `s` and the
//! two-byte unit `ms`; an `m` immediately followed by an `s` always means
//! milliseconds, never minutes. Numbers may carry one fractional part.
//! The parse accumulates every token into one total, expressed in
//! nanoseconds; a total of zero means no duration could be determined.
//! A header holding any byte outside visible ASCII, space and tab is not a
//! string at all, and yields no duration either.

use vstd::prelude::*;

verus! {

/// ASCII horizontal tab
pub const TAB: u8 = 9;
/// ASCII `.`
pub const DOT: u8 = 46;
/// ASCII `0`
pub const DIGIT_ZERO: u8 = 48;
/// ASCII `9`
pub const DIGIT_NINE: u8 = 57;
/// ASCII `h`
pub const LETTER_H: u8 = 104;
/// ASCII `m`
pub const LETTER_M: u8 = 109;
/// ASCII `s`
pub const LETTER_S: u8 = 115;
/// ASCII `a`
pub const LETTER_A_LOWER: u8 = 97;
/// ASCII `z`
pub const LETTER_Z_LOWER: u8 = 122;
/// ASCII `A`
pub const LETTER_A_UPPER: u8 = 65;
/// ASCII `Z`
pub const LETTER_Z_UPPER: u8 = 90;

/// Nanoseconds in one hour.
pub const NANOS_PER_HOUR: u64 = 3_600_000_000_000;
/// Nanoseconds in one minute.
pub const NANOS_PER_MINUTE: u64 = 60_000_000_000;
/// Nanoseconds in one second.
pub const NANOS_PER_SECOND: u64 = 1_000_000_000;
/// Nanoseconds in one millisecond.
pub const NANOS_PER_MILLI: u64 = 1_000_000;

/// A positive wait obtained from a rate-limit reset header.
///
/// An all-zero accumulation is never represented here: the parser returns
/// `None` instead, so a value of this type always demands a real wait.
pub struct RetryDuration {
    nanos: u64,
}

impl RetryDuration {
    /// The wait in nanoseconds; always at least one.
    pub closed spec fn spec_nanos(&self) -> nat {
        self.nanos as nat
    }

    /// Every value of this type stands for a strictly positive wait.
    pub closed spec fn wf(&self) -> bool {
        self.nanos >= 1
    }

    pub fn as_nanos(&self) -> (r: u64)
        ensures
            r as nat == self.spec_nanos(),
    {
        self.nanos
    }
}

pub open spec fn is_digit(c: u8) -> bool {
    DIGIT_ZERO <= c && c <= DIGIT_NINE
}

pub open spec fn is_letter(c: u8) -> bool {
    (LETTER_A_LOWER <= c && c <= LETTER_Z_LOWER) || (LETTER_A_UPPER <= c && c <= LETTER_Z_UPPER)
}

pub open spec fn digit_val(c: u8) -> nat {
    (c - DIGIT_ZERO) as nat
}

/// Value of a run of decimal digits, most significant first.
pub open spec fn int_val(ds: Seq<u8>) -> nat
    decreases ds.len(),
{
    if ds.len() == 0 {
        0
    } else {
        int_val(ds.drop_last()) * 10 + digit_val(ds.last())
    }
}

/// Ten raised to `n`.
pub open spec fn pow10(n: nat) -> nat
    decreases n,
{
    if n == 0 {
        1
    } else {
        10 * pow10((n - 1) as nat)
    }
}

/// Nanoseconds contributed by the fractional digits `ds` under a unit worth
/// `unit` nanoseconds: their value scaled by the unit and divided once by
/// ten to their count, so only the sub-nanosecond remainder is dropped.
pub open spec fn frac_nanos(ds: Seq<u8>, unit: nat) -> nat {
    (int_val(ds) * unit) / pow10(ds.len())
}

/// The same fractional value read one digit at a time from the least
/// significant end, as the executable conversion walks it.
pub open spec fn frac_horner(ds: Seq<u8>, unit: nat) -> nat
    decreases ds.len(),
{
    if ds.len() == 0 {
        0
    } else {
        (digit_val(ds.first()) * unit + frac_horner(ds.drop_first(), unit)) / 10
    }
}

/// Caps a count of nanoseconds at what a `u64` can hold.
pub open spec fn sat64(x: nat) -> nat {
    if x > u64::MAX {
        u64::MAX as nat
    } else {
        x
    }
}

/// Capped addition of two nanosecond totals.
pub open spec fn sat_add64(a: nat, b: nat) -> nat {
    sat64(a + b)
}

/// Index of the first decimal point in `buf`, or `buf.len()` if none.
pub open spec fn dot_index(buf: Seq<u8>) -> int
    decreases buf.len(),
{
    if buf.len() == 0 {
        0
    } else if buf.first() == DOT {
        0
    } else {
        1 + dot_index(buf.drop_first())
    }
}

/// Digits of `buf` before its decimal point.
pub open spec fn int_part(buf: Seq<u8>) -> Seq<u8> {
    buf.subrange(0, dot_index(buf))
}

/// Digits of `buf` after its decimal point, empty if there is none.
pub open spec fn frac_part(buf: Seq<u8>) -> Seq<u8> {
    if dot_index(buf) < buf.len() {
        buf.subrange(dot_index(buf) + 1, buf.len() as int)
    } else {
        Seq::empty()
    }
}

/// A byte that a header value may hold and still be a string: visible
/// ASCII, space, or tab. Anything else never passes the transport's
/// string conversion, so the parser refuses it too.
pub open spec fn is_header_text_byte(c: u8) -> bool {
    c == TAB || (32 <= c && c <= 126)
}

/// Whether every byte of the header could come from a string.
pub open spec fn is_header_text(s: Seq<u8>) -> bool {
    forall|k: int| 0 <= k < s.len() ==> is_header_text_byte(s[k])
}

/// A pending numeric buffer: decimal digits with at most one decimal point.
pub open spec fn buf_wf(buf: Seq<u8>) -> bool {
    &&& forall|k: int| 0 <= k < buf.len() ==> is_digit(buf[k]) || buf[k] == DOT
    &&& forall|p: int, q: int|
        0 <= p < buf.len() && 0 <= q < buf.len() && buf[p] == DOT && buf[q] == DOT ==> p == q
}

/// The one numeric buffer that holds no number at all: a bare decimal point.
/// Resolving it against a unit makes the whole parse fail.
pub open spec fn bad_number(buf: Seq<u8>) -> bool {
    buf.len() == 1 && buf[0] == DOT
}

/// Nanoseconds denoted by the numeric buffer `buf` under a unit worth
/// `unit` nanoseconds, capped at `u64::MAX`.
pub open spec fn token_nanos(buf: Seq<u8>, unit: nat) -> nat {
    sat64(int_val(int_part(buf)) * unit + frac_nanos(frac_part(buf), unit))
}

/// A zero total means the header carried no usable duration.
pub open spec fn finish(total: nat) -> Option<nat> {
    if total == 0 {
        None
    } else {
        Some(total)
    }
}

/// Resolves the pending buffer against a unit: an empty buffer is ignored,
/// a bare decimal point fails the parse, and anything else adds its value
/// to the running total before the scan goes on at position `i`.
pub open spec fn apply_unit(s: Seq<u8>, i: int, buf: Seq<u8>, total: nat, unit: nat) -> Option<
    nat,
>
    decreases s.len() - i, 2int,
{
    if buf.len() == 0 {
        scan(s, i, buf, total)
    } else if bad_number(buf) {
        None
    } else {
        scan(s, i, Seq::empty(), sat_add64(total, token_nanos(buf, unit)))
    }
}

/// One left-to-right pass over the header bytes from position `i`, with the
/// pending numeric buffer `buf` and the nanoseconds accumulated so far.
///
/// Digits and a first decimal point extend the buffer. A letter resolves a
/// unit: `m` directly followed by `s` is milliseconds, else `h`, `m` and `s`
/// stand alone, and any other letter discards the pending buffer without
/// failing the parse. Every other byte is ignored. A buffer still pending at
/// the end of the input is read as seconds.
pub open spec fn scan(s: Seq<u8>, i: int, buf: Seq<u8>, total: nat) -> Option<nat>
    decreases s.len() - i, 1int,
{
    if i < 0 || i >= s.len() {
        if buf.len() == 0 {
            finish(total)
        } else if bad_number(buf) {
            None
        } else {
            finish(sat_add64(total, token_nanos(buf, NANOS_PER_SECOND as nat)))
        }
    } else {
        let c = s[i];
        if is_digit(c) || (c == DOT && !buf.contains(DOT)) {
            scan(s, i + 1, buf.push(c), total)
        } else if is_letter(c) {
            if c == LETTER_M && i + 1 < s.len() && s[i + 1] == LETTER_S {
                apply_unit(s, i + 2, buf, total, NANOS_PER_MILLI as nat)
            } else if c == LETTER_H {
                apply_unit(s, i + 1, buf, total, NANOS_PER_HOUR as nat)
            } else if c == LETTER_M {
                apply_unit(s, i + 1, buf, total, NANOS_PER_MINUTE as nat)
            } else if c == LETTER_S {
                apply_unit(s, i + 1, buf, total, NANOS_PER_SECOND as nat)
            } else {
                scan(s, i + 1, Seq::empty(), total)
            }
        } else {
            scan(s, i + 1, buf, total)
        }
    }
}

/// What the whole header denotes: `Some` of a positive nanosecond total,
/// or `None` when no duration can be determined from it — because some
/// byte keeps the header from being a string, because a numeric field is
/// a bare decimal point, or because the total is exactly zero.
pub open spec fn parse_spec(s: Seq<u8>) -> Option<nat> {
    if is_header_text(s) {
        scan(s, 0, Seq::empty(), 0)
    } else {
        None
    }
}


/// Pins `dot_index` down from a first-occurrence description.
proof fn lemma_dot_index(buf: Seq<u8>, j: int)
    requires
        0 <= j <= buf.len(),
        forall|k: int| 0 <= k < j ==> buf[k] != DOT,
        j == buf.len() || buf[j] == DOT,
    ensures
        dot_index(buf) == j,
    decreases buf.len(),
{
    if buf.len() == 0 {
    } else if buf.first() == DOT {
        assert(j == 0) by {
            if j > 0 {
                assert(buf[0] != DOT);
            }
        }
    } else {
        assert(j >= 1);
        assert forall|k: int| 0 <= k < j - 1 implies buf.drop_first()[k] != DOT by {
            assert(buf[k + 1] != DOT);
        }
        lemma_dot_index(buf.drop_first(), j - 1);
    }
}

proof fn lemma_pow10_pos(n: nat)
    ensures
        pow10(n) >= 1,
    decreases n,
{
    if n > 0 {
        lemma_pow10_pos((n - 1) as nat);
    }
}

/// Splitting a digit string at its most significant digit.
proof fn lemma_int_val_first(ds: Seq<u8>)
    requires
        ds.len() > 0,
    ensures
        int_val(ds) == digit_val(ds.first()) * pow10((ds.len() - 1) as nat) + int_val(
            ds.drop_first(),
        ),
    decreases ds.len(),
{
    if ds.len() == 1 {
        assert(ds.drop_last() =~= Seq::<u8>::empty());
        assert(ds.drop_first() =~= Seq::<u8>::empty());
        assert(ds.first() == ds.last());
        assert(int_val(Seq::<u8>::empty()) == 0);
        assert(pow10(0nat) == 1);
        assert(int_val(ds) == digit_val(ds.last()));
        assert((ds.len() - 1) as nat == 0nat);
        assert(pow10((ds.len() - 1) as nat) == 1);
        assert(digit_val(ds.first()) * pow10((ds.len() - 1) as nat) == digit_val(ds.first()))
            by (nonlinear_arith)
            requires
                pow10((ds.len() - 1) as nat) == 1,
        ;
        assert(int_val(ds) == digit_val(ds.first()) * pow10((ds.len() - 1) as nat) + int_val(
            ds.drop_first(),
        ));
    } else {
        let dl = ds.drop_last();
        lemma_int_val_first(dl);
        assert(dl.first() == ds.first());
        assert(dl.drop_first() =~= ds.drop_first().drop_last());
        assert(ds.drop_first().last() == ds.last());
        let d = digit_val(ds.first());
        let k2 = (dl.len() - 1) as nat;
        assert(int_val(ds) == int_val(dl) * 10 + digit_val(ds.last()));
        assert(int_val(dl) == d * pow10(k2) + int_val(dl.drop_first()));
        assert(int_val(ds.drop_first()) == int_val(dl.drop_first()) * 10 + digit_val(ds.last()));
        assert(pow10(k2 + 1) == 10 * pow10(k2));
        assert((d * pow10(k2) + int_val(dl.drop_first())) * 10 == d * (10 * pow10(k2)) + int_val(
            dl.drop_first(),
        ) * 10) by (nonlinear_arith);
        assert((ds.len() - 1) as nat == k2 + 1);
        assert(int_val(ds) == d * (10 * pow10(k2)) + int_val(dl.drop_first()) * 10 + digit_val(
            ds.last(),
        ));
        assert(int_val(ds) == d * pow10(k2 + 1) + int_val(ds.drop_first()));
    }
}

/// The digit-by-digit reading equals the value taken with one division.
proof fn lemma_horner_exact(ds: Seq<u8>, unit: nat)
    ensures
        frac_horner(ds, unit) == frac_nanos(ds, unit),
    decreases ds.len(),
{
    if ds.len() == 0 {
        vstd::arithmetic::div_mod::lemma_div_of0(1);
        assert(ds =~= Seq::<u8>::empty());
        assert(int_val(ds) == 0);
        assert(pow10(ds.len()) == 1);
        assert(int_val(ds) * unit == 0) by (nonlinear_arith)
            requires
                int_val(ds) == 0,
        ;
        assert(frac_nanos(ds, unit) == 0);
    } else {
        let rest = ds.drop_first();
        let d = digit_val(ds.first());
        let p = pow10(rest.len());
        let x = int_val(rest) * unit;
        lemma_horner_exact(rest, unit);
        lemma_pow10_pos(rest.len());
        lemma_int_val_first(ds);
        assert(rest.len() == (ds.len() - 1) as nat);
        assert(int_val(ds) == d * p + int_val(rest));
        vstd::arithmetic::div_mod::lemma_hoist_over_denominator(x as int, (d * unit) as int, p);
        vstd::arithmetic::div_mod::lemma_div_denominator((x + d * unit * p) as int, p as int, 10);
        assert((d * p + int_val(rest)) * unit == d * unit * p + int_val(rest) * unit)
            by (nonlinear_arith);
        assert(pow10(ds.len()) == 10 * p);
        assert(frac_horner(ds, unit) == (d * unit + x / p) / 10);
        assert((d * unit + x / p) / 10 == ((x + d * unit * p) / p) / 10);
        assert(((x + d * unit * p) / p) / 10 == (x + d * unit * p) / (p * 10));
        assert(frac_nanos(ds, unit) == (int_val(ds) * unit) / (10 * p));
    }
}

/// Fractional digits never contribute more than one whole unit.
proof fn lemma_horner_le(ds: Seq<u8>, unit: nat)
    requires
        forall|k: int| 0 <= k < ds.len() ==> is_digit(ds[k]),
    ensures
        frac_horner(ds, unit) <= unit,
    decreases ds.len(),
{
    if ds.len() > 0 {
        assert forall|k: int| 0 <= k < ds.drop_first().len() implies is_digit(
            ds.drop_first()[k],
        ) by {
            assert(ds.drop_first()[k] == ds[k + 1]);
        }
        lemma_horner_le(ds.drop_first(), unit);
        let h = frac_horner(ds.drop_first(), unit);
        assert(digit_val(ds.first()) * unit <= 9 * unit) by (nonlinear_arith)
            requires
                digit_val(ds.first()) <= 9,
        ;
        vstd::arithmetic::div_mod::lemma_div_is_ordered(
            (digit_val(ds.first()) * unit + h) as int,
            (10 * unit) as int,
            10,
        );
        vstd::arithmetic::div_mod::lemma_div_multiples_vanish(unit as int, 10);
    }
}

/// One saturating decimal-accumulation step: extending a capped value `a`
/// that stands for the true digit string value `v` by the digit `d`.
proof fn lemma_sat_digit_step(v: nat, a: u64, d: u64)
    requires
        d <= 9,
        a as nat == sat64(v),
    ensures
        a > (u64::MAX - d) / 10 ==> sat64(v * 10 + d as nat) == u64::MAX as nat,
        a <= (u64::MAX - d) / 10 ==> a as nat * 10 + d <= u64::MAX && a as nat * 10 + d == sat64(
            v * 10 + d as nat,
        ),
{
    let m = u64::MAX as nat;
    let q = (m - d) / 10;
    assert(10 * q <= m - d && m - d < 10 * q + 10) by (nonlinear_arith)
        requires
            d <= 9,
            m == u64::MAX as nat,
            q == (m - d) / 10,
    ;
    if a as nat <= q {
        assert(q < m);
        assert(v <= m) by {
            if v > m {
                assert(a as nat == m);
            }
        }
        assert(a as nat == v);
        assert(v * 10 + d <= m);
    } else {
        if v <= m {
            assert(a as nat == v);
            assert(v * 10 >= 10 * q + 10);
            assert(v * 10 + d > m);
        } else {
            assert(v * 10 + d > m) by (nonlinear_arith)
                requires
                    v > m,
            ;
        }
    }
}

/// Nanoseconds denoted by a pending numeric buffer under the given unit,
/// capped at `u64::MAX`.
fn token_value(buf: &Vec<u8>, unit: u64) -> (r: u64)
    requires
        buf_wf(buf@),
        !bad_number(buf@),
        1 <= unit <= NANOS_PER_HOUR,
    ensures
        r as nat == token_nanos(buf@, unit as nat),
{
    let ghost bufs = buf@;
    let n = buf.len();
    let mut j: usize = 0;
    let mut acc: u64 = 0;
    while j < n && buf[j] != DOT
        invariant
            0 <= j <= n,
            n == bufs.len(),
            buf@ == bufs,
            buf_wf(bufs),
            forall|k: int| 0 <= k < j ==> bufs[k] != DOT,
            acc as nat == sat64(int_val(bufs.subrange(0, j as int))),
        decreases n - j,
    {
        let c = buf[j];
        proof {
            assert(is_digit(bufs[j as int]));
            assert(bufs.subrange(0, j as int + 1).drop_last() =~= bufs.subrange(0, j as int));
            assert(bufs.subrange(0, j as int + 1).last() == bufs[j as int]);
            lemma_sat_digit_step(int_val(bufs.subrange(0, j as int)), acc, (c - DIGIT_ZERO) as u64);
        }
        let d = (c - DIGIT_ZERO) as u64;
        if acc > (u64::MAX - d) / 10 {
            acc = u64::MAX;
        } else {
            acc = acc * 10 + d;
        }
        j += 1;
    }
    proof {
        lemma_dot_index(bufs, j as int);
        assert(int_part(bufs) =~= bufs.subrange(0, j as int));
    }
    let mut fsum: u64 = 0;
    if j < n {
        proof {
            assert(frac_part(bufs) =~= bufs.subrange(j as int + 1, n as int));
            assert forall|k: int| 0 <= k < frac_part(bufs).len() implies is_digit(
                frac_part(bufs)[k],
            ) by {
                assert(frac_part(bufs)[k] == bufs[j + 1 + k]);
                assert(bufs[j + 1 + k] != DOT);
            }
            lemma_horner_le(frac_part(bufs), unit as nat);
            lemma_horner_exact(frac_part(bufs), unit as nat);
            assert(bufs.subrange(n as int, n as int) =~= Seq::<u8>::empty());
        }
        let mut k: usize = n;
        while k > j + 1
            invariant
                j + 1 <= k <= n,
                n == bufs.len(),
                buf@ == bufs,
                buf_wf(bufs),
                j < n,
                bufs[j as int] == DOT,
                1 <= unit <= NANOS_PER_HOUR,
                fsum as nat == frac_horner(bufs.subrange(k as int, n as int), unit as nat),
                fsum <= unit,
            decreases k,
        {
            k -= 1;
            let c = buf[k];
            proof {
                assert(bufs[k as int] != DOT);
                assert(is_digit(bufs[k as int]));
                let suf = bufs.subrange(k as int, n as int);
                assert(suf.first() == bufs[k as int]);
                assert(suf.drop_first() =~= bufs.subrange(k as int + 1, n as int));
                assert(digit_val(bufs[k as int]) * (unit as nat) <= 9 * (unit as nat))
                    by (nonlinear_arith)
                    requires
                        digit_val(bufs[k as int]) <= 9,
                ;
                vstd::arithmetic::div_mod::lemma_div_is_ordered(
                    (digit_val(bufs[k as int]) * (unit as nat) + fsum as nat) as int,
                    (10 * unit) as int,
                    10,
                );
                vstd::arithmetic::div_mod::lemma_div_multiples_vanish(unit as int, 10);
            }
            let d = (c - DIGIT_ZERO) as u64;
            fsum = (d * unit + fsum) / 10;
        }
        proof {
            assert(fsum as nat == frac_nanos(frac_part(bufs), unit as nat));
        }
    } else {
        proof {
            assert(frac_part(bufs) =~= Seq::<u8>::empty());
            vstd::arithmetic::div_mod::lemma_div_of0(1);
            assert(int_val(Seq::<u8>::empty()) == 0);
            assert(Seq::<u8>::empty().len() == 0);
            assert(pow10(Seq::<u8>::empty().len()) == 1);
            assert(int_val(Seq::<u8>::empty()) * (unit as nat) == 0) by (nonlinear_arith)
                requires
                    int_val(Seq::<u8>::empty()) == 0,
            ;
            assert(frac_nanos(Seq::<u8>::empty(), unit as nat) == 0);
        }
    }
    proof {
        assert((acc as nat) * (unit as nat) <= (u64::MAX as nat) * (NANOS_PER_HOUR as nat))
            by (nonlinear_arith)
            requires
                acc <= u64::MAX,
                unit <= NANOS_PER_HOUR,
        ;
    }
    let iv128: u128 = (acc as u128) * (unit as u128);
    let total128: u128 = iv128 + (fsum as u128);
    let ghost iv = int_val(int_part(bufs));
    let ghost fv = frac_nanos(frac_part(bufs), unit as nat);
    proof {
        if iv > u64::MAX {
            assert(acc == u64::MAX);
            assert(iv * unit as nat >= iv) by (nonlinear_arith)
                requires
                    unit >= 1,
            ;
            assert((u64::MAX as nat) * (unit as nat) >= u64::MAX as nat) by (nonlinear_arith)
                requires
                    unit >= 1,
            ;
        }
    }
    if total128 > u64::MAX as u128 {
        u64::MAX
    } else {
        total128 as u64
    }
}

/// Pushing a digit, or a first decimal point, keeps a buffer well formed
/// and settles whether it now holds a decimal point.
proof fn lemma_push_keeps_wf(buf: Seq<u8>, c: u8)
    requires
        buf_wf(buf),
        is_digit(c) || (c == DOT && !buf.contains(DOT)),
    ensures
        buf_wf(buf.push(c)),
        buf.push(c).contains(DOT) == (buf.contains(DOT) || c == DOT),
{
    let nb = buf.push(c);
    if buf.contains(DOT) {
        let w = choose|w: int| 0 <= w < buf.len() && buf[w] == DOT;
        assert(nb[w] == DOT);
        assert(nb.contains(DOT));
    }
    if c == DOT {
        assert(nb[buf.len() as int] == DOT);
        assert(nb.contains(DOT));
    }
    if nb.contains(DOT) && !buf.contains(DOT) && c != DOT {
        let w = choose|w: int| 0 <= w < nb.len() && nb[w] == DOT;
        if w < buf.len() {
            assert(buf[w] == DOT);
            assert(buf.contains(DOT));
        } else {
            assert(nb[w] == c);
        }
        assert(false);
    }
    assert forall|k: int| 0 <= k < nb.len() implies is_digit(nb[k]) || nb[k] == DOT by {
        if k < buf.len() {
            assert(is_digit(buf[k]) || buf[k] == DOT);
        }
    }
    assert forall|p: int, q: int|
        0 <= p < nb.len() && 0 <= q < nb.len() && nb[p] == DOT && nb[q] == DOT implies p == q by {
        if c == DOT {
            if p < buf.len() {
                assert(buf[p] == DOT);
                assert(buf.contains(DOT));
            }
            if q < buf.len() {
                assert(buf[q] == DOT);
                assert(buf.contains(DOT));
            }
        } else {
            assert(p < buf.len() && q < buf.len());
        }
    }
}

/// Capped addition of two nanosecond counts.
fn add_nanos(a: u64, b: u64) -> (r: u64)
    ensures
        r as nat == sat_add64(a as nat, b as nat),
{
    if a > u64::MAX - b {
        u64::MAX
    } else {
        a + b
    }
}

/// Reads a rate-limit reset header value such as `"6m10s"`, `"500ms"` or
/// `"1.5h"` into a positive wait, or `None` when the value carries no
/// determinable duration: when some byte keeps it from being a string,
/// when it is empty or all noise, when a numeric field is a bare decimal
/// point, or when the tokens sum to exactly zero.
pub fn parse_ratelimit_duration(s: &[u8]) -> (r: Option<RetryDuration>)
    ensures
        match r {
            Some(d) => parse_spec(s@) == Some(d.spec_nanos()) && d.wf(),
            None => parse_spec(s@) is None,
        },
{
    let n = s.len();
    let mut v: usize = 0;
    while v < n
        invariant
            v <= n == s@.len(),
            forall|k: int| 0 <= k < v ==> is_header_text_byte(s@[k]),
        decreases n - v,
    {
        let c = s[v];
        if !(c == TAB || (32 <= c && c <= 126)) {
            proof {
                assert(!is_header_text_byte(s@[v as int]));
            }
            return None;
        }
        v += 1;
    }
    proof {
        assert(is_header_text(s@));
    }
    let mut buf: Vec<u8> = Vec::new();
    let mut has_dot = false;
    let mut total: u64 = 0;
    let mut i: usize = 0;
    while i < n
        invariant
            i <= n == s@.len(),
            buf_wf(buf@),
            has_dot == buf@.contains(DOT),
            scan(s@, i as int, buf@, total as nat) == parse_spec(s@),
        decreases n - i,
    {
        let c = s[i];
        let ghost b0 = buf@;
        let ghost t0 = total as nat;
        let ghost i0 = i as int;
        if DIGIT_ZERO <= c && c <= DIGIT_NINE {
            proof {
                lemma_push_keeps_wf(b0, c);
                assert(scan(s@, i0, b0, t0) == scan(s@, i0 + 1, b0.push(c), t0));
            }
            buf.push(c);
            i += 1;
        } else if c == DOT && !has_dot {
            proof {
                lemma_push_keeps_wf(b0, c);
                assert(scan(s@, i0, b0, t0) == scan(s@, i0 + 1, b0.push(c), t0));
            }
            buf.push(c);
            has_dot = true;
            i += 1;
        } else if (LETTER_A_LOWER <= c && c <= LETTER_Z_LOWER) || (LETTER_A_UPPER <= c && c
            <= LETTER_Z_UPPER) {
            let two = c == LETTER_M && i + 1 < n && s[i + 1] == LETTER_S;
            let unit: u64 = if two {
                NANOS_PER_MILLI
            } else if c == LETTER_H {
                NANOS_PER_HOUR
            } else if c == LETTER_M {
                NANOS_PER_MINUTE
            } else if c == LETTER_S {
                NANOS_PER_SECOND
            } else {
                0
            };
            let step: usize = if two {
                2
            } else {
                1
            };
            let ghost ni = i0 + step as int;
            let ghost gu = unit as nat;
            proof {
                assert(is_letter(c));
                if unit != 0 {
                    assert(scan(s@, i0, b0, t0) == apply_unit(s@, ni, b0, t0, gu));
                } else {
                    assert(scan(s@, i0, b0, t0) == scan(s@, i0 + 1, Seq::<u8>::empty(), t0));
                }
            }
            if unit == 0 {
                buf.clear();
                has_dot = false;
                i += 1;
            } else if buf.len() == 0 {
                proof {
                    assert(apply_unit(s@, ni, b0, t0, gu) == scan(s@, ni, b0, t0));
                }
                i += step;
            } else if buf.len() == 1 && buf[0] == DOT {
                proof {
                    assert(bad_number(b0));
                    assert(apply_unit(s@, ni, b0, t0, gu) is None);
                }
                return None;
            } else {
                proof {
                    assert(!bad_number(b0));
                    assert(apply_unit(s@, ni, b0, t0, gu) == scan(
                        s@,
                        ni,
                        Seq::<u8>::empty(),
                        sat_add64(t0, token_nanos(b0, gu)),
                    ));
                }
                let tok = token_value(&buf, unit);
                total = add_nanos(total, tok);
                buf.clear();
                has_dot = false;
                i += step;
            }
        } else {
            proof {
                assert(!is_digit(c) && !is_letter(c));
                assert(scan(s@, i0, b0, t0) == scan(s@, i0 + 1, b0, t0));
            }
            i += 1;
        }
    }
    let ghost bend = buf@;
    let ghost tend = total as nat;
    if buf.len() > 0 {
        if buf.len() == 1 && buf[0] == DOT {
            proof {
                assert(scan(s@, n as int, bend, tend) is None);
            }
            return None;
        }
        proof {
            assert(scan(s@, n as int, bend, tend) == finish(
                sat_add64(tend, token_nanos(bend, NANOS_PER_SECOND as nat)),
            ));
        }
        let tok = token_value(&buf, NANOS_PER_SECOND);
        total = add_nanos(total, tok);
    } else {
        proof {
            assert(scan(s@, n as int, bend, tend) == finish(tend));
        }
    }
    if total == 0 {
        None
    } else {
        Some(RetryDuration { nanos: total })
    }
}

/// Multiplier of a unit suffix, in nanoseconds.
pub open spec fn unit_multiplier(unit: Seq<u8>) -> nat {
    if unit =~= seq![LETTER_M, LETTER_S] {
        NANOS_PER_MILLI as nat
    } else if unit =~= seq![LETTER_H] {
        NANOS_PER_HOUR as nat
    } else if unit =~= seq![LETTER_M] {
        NANOS_PER_MINUTE as nat
    } else {
        NANOS_PER_SECOND as nat
    }
}

/// Scanning a run of digits holding at most one decimal point only grows
/// the pending buffer by that run.
proof fn lemma_scan_absorbs(s: Seq<u8>, i: int, j: int, buf: Seq<u8>, total: nat)
    requires
        0 <= i <= j <= s.len(),
        forall|k: int| i <= k < j ==> is_digit(s[k]) || s[k] == DOT,
        buf_wf(buf + s.subrange(i, j)),
    ensures
        scan(s, i, buf, total) == scan(s, j, buf + s.subrange(i, j), total),
    decreases j - i,
{
    if i == j {
        assert(buf + s.subrange(i, j) =~= buf);
    } else {
        let c = s[i];
        let nb = buf.push(c);
        let comb = buf + s.subrange(i, j);
        assert(comb =~= nb + s.subrange(i + 1, j));
        if c == DOT {
            if buf.contains(DOT) {
                let w = choose|w: int| 0 <= w < buf.len() && buf[w] == DOT;
                assert(comb[w] == DOT);
                assert(comb[buf.len() as int] == DOT);
                assert(false);
            }
            assert(scan(s, i, buf, total) == scan(s, i + 1, nb, total));
        } else {
            assert(is_digit(c));
            assert(scan(s, i, buf, total) == scan(s, i + 1, nb, total));
        }
        lemma_scan_absorbs(s, i + 1, j, nb, total);
    }
}

/// The scan from position `k + i` sees exactly what a scan of the input
/// with its first `k` bytes cut off sees from position `i`.
proof fn lemma_scan_shift(s: Seq<u8>, k: int, i: int, buf: Seq<u8>, total: nat)
    requires
        0 <= k <= s.len(),
        0 <= i,
    ensures
        scan(s, k + i, buf, total) == scan(s.skip(k), i, buf, total),
    decreases s.len() - (k + i),
{
    reveal_with_fuel(scan, 2);
    reveal_with_fuel(apply_unit, 2);
    let r = s.skip(k);
    if k + i >= s.len() {
    } else {
        let c = s[k + i];
        assert(r[i] == c);
        if is_digit(c) || (c == DOT && !buf.contains(DOT)) {
            lemma_scan_shift(s, k, i + 1, buf.push(c), total);
        } else if is_letter(c) {
            if c == LETTER_M && k + i + 1 < s.len() && s[k + i + 1] == LETTER_S {
                assert(r[i + 1] == s[k + i + 1]);
                if buf.len() == 0 {
                    lemma_scan_shift(s, k, i + 2, buf, total);
                } else if !bad_number(buf) {
                    lemma_scan_shift(
                        s,
                        k,
                        i + 2,
                        Seq::empty(),
                        sat_add64(total, token_nanos(buf, NANOS_PER_MILLI as nat)),
                    );
                }
            } else if c == LETTER_H {
                if buf.len() == 0 {
                    lemma_scan_shift(s, k, i + 1, buf, total);
                } else if !bad_number(buf) {
                    lemma_scan_shift(
                        s,
                        k,
                        i + 1,
                        Seq::empty(),
                        sat_add64(total, token_nanos(buf, NANOS_PER_HOUR as nat)),
                    );
                }
            } else if c == LETTER_M {
                if buf.len() == 0 {
                    lemma_scan_shift(s, k, i + 1, buf, total);
                } else if !bad_number(buf) {
                    lemma_scan_shift(
                        s,
                        k,
                        i + 1,
                        Seq::empty(),
                        sat_add64(total, token_nanos(buf, NANOS_PER_MINUTE as nat)),
                    );
                }
            } else if c == LETTER_S {
                if buf.len() == 0 {
                    lemma_scan_shift(s, k, i + 1, buf, total);
                } else if !bad_number(buf) {
                    lemma_scan_shift(
                        s,
                        k,
                        i + 1,
                        Seq::empty(),
                        sat_add64(total, token_nanos(buf, NANOS_PER_SECOND as nat)),
                    );
                }
            } else {
                lemma_scan_shift(s, k, i + 1, Seq::empty(), total);
            }
        } else {
            lemma_scan_shift(s, k, i + 1, buf, total);
        }
    }
}

/// Law: a single `<number><unit>` input parses to that number of units,
/// counted in nanoseconds, except that a value of exactly zero yields no
/// duration at all.
pub proof fn lemma_parse_single_token(num: Seq<u8>, unit: Seq<u8>)
    requires
        num.len() > 0,
        buf_wf(num),
        !bad_number(num),
        unit =~= seq![LETTER_H] || unit =~= seq![LETTER_M] || unit =~= seq![LETTER_S] || unit
            =~= seq![LETTER_M, LETTER_S],
    ensures
        parse_spec(num + unit) == finish(token_nanos(num, unit_multiplier(unit))),
{
    let s = num + unit;
    let j = num.len() as int;
    assert(is_header_text(s)) by {
        assert forall|k: int| 0 <= k < s.len() implies is_header_text_byte(s[k]) by {
            if k < j {
                assert(is_digit(num[k]) || num[k] == DOT);
            } else {
                assert(s[k] == unit[k - j]);
            }
        }
    }
    assert(s.subrange(0, j) =~= num);
    assert(Seq::<u8>::empty() + s.subrange(0, j) =~= num);
    lemma_scan_absorbs(s, 0, j, Seq::empty(), 0);
    assert(scan(s, j, Seq::<u8>::empty() + s.subrange(0, j), 0) == scan(s, j, num, 0));
    let c = s[j];
    assert(c == unit[0]);
    let tok = token_nanos(num, unit_multiplier(unit));
    assert(tok <= u64::MAX);
    assert(sat_add64(0, tok) == tok);
    if unit =~= seq![LETTER_M, LETTER_S] {
        assert(s[j + 1] == LETTER_S);
        assert(scan(s, j, num, 0) == apply_unit(s, j + 2, num, 0, NANOS_PER_MILLI as nat));
        assert(apply_unit(s, j + 2, num, 0, NANOS_PER_MILLI as nat) == scan(
            s,
            j + 2,
            Seq::empty(),
            tok,
        ));
        assert(scan(s, j + 2, Seq::<u8>::empty(), tok) == finish(tok));
    } else {
        assert(unit.len() == 1);
        assert(j + 1 == s.len());
        let u = unit_multiplier(unit);
        assert(scan(s, j, num, 0) == apply_unit(s, j + 1, num, 0, u));
        assert(apply_unit(s, j + 1, num, 0, u) == scan(s, j + 1, Seq::empty(), tok));
        assert(scan(s, j + 1, Seq::<u8>::empty(), tok) == finish(tok));
    }
}

/// Law, integral form: a whole number of units parses to exactly that many
/// nanoseconds whenever the product fits the representation.
pub proof fn lemma_parse_integer_token(num: Seq<u8>, unit: Seq<u8>)
    requires
        num.len() > 0,
        forall|k: int| 0 <= k < num.len() ==> is_digit(num[k]),
        unit =~= seq![LETTER_H] || unit =~= seq![LETTER_M] || unit =~= seq![LETTER_S] || unit
            =~= seq![LETTER_M, LETTER_S],
        int_val(num) * unit_multiplier(unit) <= u64::MAX,
    ensures
        parse_spec(num + unit) == finish(int_val(num) * unit_multiplier(unit)),
{
    assert(num[0] != DOT);
    lemma_parse_single_token(num, unit);
    lemma_dot_index(num, num.len() as int);
    assert(int_part(num) =~= num);
    assert(frac_part(num) =~= Seq::<u8>::empty());
    vstd::arithmetic::div_mod::lemma_div_of0(1);
    assert(int_val(Seq::<u8>::empty()) == 0);
    assert(pow10(Seq::<u8>::empty().len()) == 1);
    assert(int_val(Seq::<u8>::empty()) * unit_multiplier(unit) == 0) by (nonlinear_arith)
        requires
            int_val(Seq::<u8>::empty()) == 0,
    ;
    assert(frac_nanos(Seq::<u8>::empty(), unit_multiplier(unit)) == 0);
}

/// Law: an unknown unit letter discards only the number standing before it;
/// whatever follows parses exactly as it would on its own.
pub proof fn lemma_unknown_unit_recovers(seg: Seq<u8>, c: u8, rest: Seq<u8>)
    requires
        buf_wf(seg),
        is_letter(c),
        c != LETTER_H,
        c != LETTER_M,
        c != LETTER_S,
    ensures
        parse_spec(seg + seq![c] + rest) == parse_spec(rest),
{
    let s = seg + seq![c] + rest;
    let j = seg.len() as int;
    if is_header_text(rest) {
        assert(is_header_text(s)) by {
            assert forall|k: int| 0 <= k < s.len() implies is_header_text_byte(s[k]) by {
                if k < j {
                    assert(is_digit(seg[k]) || seg[k] == DOT);
                } else if k == j {
                    assert(s[k] == c);
                } else {
                    assert(s[k] == rest[k - j - 1]);
                }
            }
        }
        assert(s.subrange(0, j) =~= seg);
        assert(Seq::<u8>::empty() + s.subrange(0, j) =~= seg);
        lemma_scan_absorbs(s, 0, j, Seq::empty(), 0);
        assert(scan(s, j, Seq::<u8>::empty() + s.subrange(0, j), 0) == scan(s, j, seg, 0));
        assert(s[j] == c);
        assert(scan(s, j, seg, 0) == scan(s, j + 1, Seq::empty(), 0));
        lemma_scan_shift(s, j + 1, 0, Seq::empty(), 0);
        assert(s.skip(j + 1) =~= rest);
    } else {
        let w = choose|w: int| 0 <= w < rest.len() && !is_header_text_byte(rest[w]);
        assert(s[j + 1 + w] == rest[w]);
        assert(!is_header_text(s));
    }
}

} // verus!
