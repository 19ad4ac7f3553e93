//! Timestamps and the grammar that reads them from text.
//!
//! A timestamp is written as `SS`, `SS.fff`, `MM:SS.fff` or `HH:MM:SS.fff`,
//! where the fractional part has one to three digits and is scaled up to
//! milliseconds (one digit counts hundreds, two count tens, three are exact).
//! The separator may also stand alone (`5.` is five seconds). Minutes and
//! seconds fields are two digits but are not required to be below sixty; the
//! leading field may be any number of digits.

use vstd::prelude::*;

use crate::digits::all_digits;
use crate::digits::dec_digits;
use crate::digits::digits_val;
use crate::digits::is_digit;
use crate::digits::lemma_dec_digits;
use crate::digits::lemma_dec_digits_len;
use crate::digits::lemma_digits_val_bound;
use crate::digits::lemma_digits_val_concat;
use crate::digits::lemma_pow10_pos;
use crate::digits::lemma_zero_pad;
use crate::digits::pad_zeros;
use crate::digits::pow10;
use crate::digits::push_all;
use crate::digits::u64_to_dec;
use crate::digits::zero_pad;
use crate::errors::ParseError;

verus! {

/// Length of the longest prefix of `s` made of decimal digits.
pub open spec fn digit_prefix_len(s: Seq<u8>) -> int
    decreases s.len(),
{
    if s.len() == 0 || !is_digit(s[0]) {
        0
    } else {
        1 + digit_prefix_len(s.skip(1))
    }
}

/// The tail that may follow a seconds field: nothing, a lone `.`, a `.` with
/// one to three digits, or (after a two-digit field) one to three bare
/// digits.
pub open spec fn frac_ok(t: Seq<u8>) -> bool {
    if t.len() == 0 {
        true
    } else if t[0] == 46u8 {
        t.len() <= 4 && all_digits(t.skip(1))
    } else {
        t.len() <= 3 && all_digits(t)
    }
}

/// Value in milliseconds of a fractional digit group: the group is
/// right-padded with zeros to three digits' worth of significance.
pub open spec fn scaled_ms(d: Seq<u8>) -> int {
    digits_val(d) * pow10(3 - d.len())
}

/// Milliseconds denoted by a fractional tail accepted by [`frac_ok`].
pub open spec fn frac_ms(t: Seq<u8>) -> int {
    if t.len() == 0 {
        0
    } else if t[0] == 46u8 {
        scaled_ms(t.skip(1))
    } else {
        scaled_ms(t)
    }
}

/// The whole grammar: whether `s` is a timestamp, its total seconds and its
/// milliseconds. The three formats are tried as written: seconds only, then
/// minutes:seconds, then hours:minutes:seconds; they are told apart by the
/// separators, so at most one can match.
pub open spec fn ts_model(s: Seq<u8>) -> (bool, int, int) {
    let p = digit_prefix_len(s);
    if p == 0 {
        (false, 0, 0)
    } else if p == s.len() {
        (true, digits_val(s), 0)
    } else if s[p] == 46u8 {
        let t = s.skip(p);
        if frac_ok(t) {
            (true, digits_val(s.take(p)), frac_ms(t))
        } else {
            (false, 0, 0)
        }
    } else if s[p] == 58u8 {
        let m1 = digits_val(s.take(p));
        let r = s.skip(p + 1);
        if r.len() >= 2 && is_digit(r[0]) && is_digit(r[1]) {
            let t2 = r.skip(2);
            if frac_ok(t2) {
                (true, 60 * m1 + digits_val(r.take(2)), frac_ms(t2))
            } else if t2.len() >= 1 && t2[0] == 58u8 {
                let r2 = t2.skip(1);
                if r2.len() >= 2 && is_digit(r2[0]) && is_digit(r2[1]) && frac_ok(r2.skip(2)) {
                    (
                        true,
                        3600 * m1 + 60 * digits_val(r.take(2)) + digits_val(r2.take(2)),
                        frac_ms(r2.skip(2)),
                    )
                } else {
                    (false, 0, 0)
                }
            } else {
                (false, 0, 0)
            }
        } else {
            (false, 0, 0)
        }
    } else {
        (false, 0, 0)
    }
}

/// `s` is a well-formed timestamp.
pub open spec fn ts_valid(s: Seq<u8>) -> bool {
    ts_model(s).0
}

/// Total seconds denoted by `s` (meaningful when `ts_valid(s)`).
pub open spec fn ts_secs(s: Seq<u8>) -> int {
    ts_model(s).1
}

/// Milliseconds denoted by `s` (meaningful when `ts_valid(s)`).
pub open spec fn ts_ms(s: Seq<u8>) -> int {
    ts_model(s).2
}

/// `s` is a well-formed timestamp whose seconds fit in 32 bits.
pub open spec fn ts_fits(s: Seq<u8>) -> bool {
    ts_valid(s) && ts_secs(s) <= u32::MAX as int
}

/// The digit prefix is as long as claimed: digits up to it, a non-digit (or
/// the end) right after.
pub proof fn lemma_digit_prefix_len(s: Seq<u8>)
    ensures
        0 <= digit_prefix_len(s) <= s.len(),
        forall|i: int| 0 <= i < digit_prefix_len(s) ==> is_digit(#[trigger] s[i]),
        digit_prefix_len(s) < s.len() ==> !is_digit(s[digit_prefix_len(s)]),
    decreases s.len(),
{
    if s.len() == 0 || !is_digit(s[0]) {
    } else {
        lemma_digit_prefix_len(s.skip(1));
        let p = digit_prefix_len(s);
        assert(forall|i: int| 0 <= i < s.skip(1).len() ==> #[trigger] s.skip(1)[i] == s[i + 1]);
        assert forall|i: int| 1 <= i < p implies is_digit(#[trigger] s[i]) by {
            assert(is_digit(s.skip(1)[i - 1]));
            assert(s.skip(1)[i - 1] == s[i]);
        }
        if p < s.len() {
            assert(!is_digit(s.skip(1)[p - 1]));
            assert(s.skip(1)[p - 1] == s[p]);
        }
    }
}

/// Converse: a position with digits before it and a non-digit (or the end)
/// at it is the digit prefix length.
pub proof fn lemma_digit_prefix_len_is(s: Seq<u8>, p: int)
    requires
        0 <= p <= s.len(),
        forall|i: int| 0 <= i < p ==> is_digit(#[trigger] s[i]),
        p < s.len() ==> !is_digit(s[p]),
    ensures
        digit_prefix_len(s) == p,
    decreases s.len(),
{
    if p == 0 {
    } else {
        assert(is_digit(s[0]));
        assert(forall|i: int| 0 <= i < s.skip(1).len() ==> #[trigger] s.skip(1)[i] == s[i + 1]);
        lemma_digit_prefix_len_is(s.skip(1), p - 1);
    }
}

/// A fractional tail always denotes fewer than a thousand milliseconds.
pub proof fn lemma_frac_ms_range(t: Seq<u8>)
    requires
        frac_ok(t),
    ensures
        0 <= frac_ms(t) < 1000,
{
    if t.len() == 0 {
    } else if t[0] == 46u8 {
        lemma_scaled_ms_range(t.skip(1));
    } else {
        lemma_scaled_ms_range(t);
    }
}

proof fn lemma_scaled_ms_range(d: Seq<u8>)
    requires
        all_digits(d),
        d.len() <= 3,
    ensures
        0 <= scaled_ms(d) < 1000,
{
    lemma_digits_val_bound(d);
    reveal_with_fuel(pow10, 5);
    assert(pow10(0) == 1 && pow10(1) == 10 && pow10(2) == 100 && pow10(3) == 1000);
    let v = digits_val(d);
    if d.len() == 0 {
        assert(scaled_ms(d) == 0 * pow10(3));
    } else if d.len() == 1 {
        assert(scaled_ms(d) == v * 100);
        assert(0 <= v * 100 < 1000) by (nonlinear_arith)
            requires
                0 <= v < 10,
        ;
    } else if d.len() == 2 {
        assert(scaled_ms(d) == v * 10);
        assert(0 <= v * 10 < 1000) by (nonlinear_arith)
            requires
                0 <= v < 100,
        ;
    } else {
        assert(scaled_ms(d) == v * 1);
    }
}

/// A point in time in the source media: whole seconds plus sub-second
/// milliseconds. Ordered by seconds first, milliseconds second.
#[derive(Clone, Copy, Debug, PartialEq, Eq, Structural)]
pub struct Timestamp {
    pub seconds: u32,
    pub milliseconds: u32,
}

impl Timestamp {
    /// The invariant every constructed timestamp satisfies.
    pub open spec fn wf(self) -> bool {
        self.milliseconds < 1000
    }

    /// Lexicographic order on `(seconds, milliseconds)`.
    pub open spec fn le_spec(self, other: Timestamp) -> bool {
        self.seconds < other.seconds || (self.seconds == other.seconds
            && self.milliseconds <= other.milliseconds)
    }

    /// Strict version of [`Timestamp::le_spec`].
    pub open spec fn lt_spec(self, other: Timestamp) -> bool {
        self.le_spec(other) && self != other
    }

    /// The timestamp a valid piece of text denotes.
    pub open spec fn of_text(s: Seq<u8>) -> Timestamp {
        Timestamp { seconds: ts_secs(s) as u32, milliseconds: ts_ms(s) as u32 }
    }

    /// Builds a timestamp, rejecting milliseconds of a second or more.
    pub fn new(seconds: u32, milliseconds: u32) -> (r: Option<Timestamp>)
        ensures
            match r {
                Some(t) => t.seconds == seconds && t.milliseconds == milliseconds && t.wf(),
                None => milliseconds >= 1000,
            },
            milliseconds < 1000 ==> r is Some,
    {
        if milliseconds < 1000 {
            Some(Timestamp { seconds, milliseconds })
        } else {
            None
        }
    }

    /// Whether `self` comes no later than `other`.
    pub fn le(&self, other: &Timestamp) -> (r: bool)
        ensures
            r == self.le_spec(*other),
    {
        self.seconds < other.seconds || (self.seconds == other.seconds && self.milliseconds
            <= other.milliseconds)
    }

    /// Whether `self` comes strictly before `other`.
    pub fn lt(&self, other: &Timestamp) -> (r: bool)
        ensures
            r == self.lt_spec(*other),
    {
        self.seconds < other.seconds || (self.seconds == other.seconds && self.milliseconds
            < other.milliseconds)
    }
}

/// The order on timestamps is total: reflexive, antisymmetric, transitive,
/// and any two timestamps are comparable.
pub proof fn lemma_timestamp_order(a: Timestamp, b: Timestamp, c: Timestamp)
    ensures
        a.le_spec(a),
        a.le_spec(b) || b.le_spec(a),
        a.le_spec(b) && b.le_spec(a) ==> a == b,
        a.le_spec(b) && b.le_spec(c) ==> a.le_spec(c),
{
}

/// A valid timestamp has nonnegative seconds and milliseconds below a
/// thousand.
pub proof fn lemma_ts_ranges(s: Seq<u8>)
    requires
        ts_valid(s),
    ensures
        0 <= ts_secs(s),
        0 <= ts_ms(s) < 1000,
{
    let p = digit_prefix_len(s);
    lemma_digit_prefix_len(s);
    if p == s.len() {
        assert(all_digits(s));
        lemma_digits_val_bound(s);
    } else if s[p] == 46u8 {
        assert(all_digits(s.take(p))) by {
            assert(forall|i: int| 0 <= i < p ==> #[trigger] s.take(p)[i] == s[i]);
        }
        lemma_digits_val_bound(s.take(p));
        lemma_frac_ms_range(s.skip(p));
    } else {
        assert(all_digits(s.take(p))) by {
            assert(forall|i: int| 0 <= i < p ==> #[trigger] s.take(p)[i] == s[i]);
        }
        lemma_digits_val_bound(s.take(p));
        let r = s.skip(p + 1);
        assert(all_digits(r.take(2))) by {
            assert(forall|i: int| 0 <= i < 2 ==> #[trigger] r.take(2)[i] == r[i]);
        }
        lemma_digits_val_bound(r.take(2));
        let t2 = r.skip(2);
        if frac_ok(t2) {
            lemma_frac_ms_range(t2);
        } else {
            let r2 = t2.skip(1);
            assert(all_digits(r2.take(2))) by {
                assert(forall|i: int| 0 <= i < 2 ==> #[trigger] r2.take(2)[i] == r2[i]);
            }
            lemma_digits_val_bound(r2.take(2));
            lemma_frac_ms_range(r2.skip(2));
        }
    }
}

/// Whether the byte at `i` is a decimal digit.
fn digit_at(s: &[u8], i: usize) -> (r: bool)
    requires
        i < s@.len(),
    ensures
        r == is_digit(s@[i as int]),
{
    48u8 <= s[i] && s[i] <= 57u8
}

/// Reads the digit group `s[from..to]` as a number. Rejects a value that
/// does not fit in 32 bits; every smaller value is returned exactly.
fn parse_digits(s: &[u8], from: usize, to: usize) -> (r: Result<u32, ParseError>)
    requires
        from <= to <= s@.len(),
        all_digits(s@.subrange(from as int, to as int)),
    ensures
        match r {
            Ok(v) => v == digits_val(s@.subrange(from as int, to as int)),
            Err(e) => e is TooLarge && digits_val(s@.subrange(from as int, to as int))
                > u32::MAX,
        },
{
    let ghost whole = s@.subrange(from as int, to as int);
    let mut acc: u64 = 0;
    let mut i: usize = from;
    while i < to
        invariant
            from <= i <= to <= s@.len(),
            all_digits(whole),
            whole == s@.subrange(from as int, to as int),
            acc == digits_val(s@.subrange(from as int, i as int)),
            acc <= u32::MAX,
        decreases to - i,
    {
        proof {
            assert(whole[i - from] == s@[i as int]);
        }
        let b = s[i];
        acc = acc * 10 + ((b - 48u8) as u64);
        i = i + 1;
        proof {
            assert(s@.subrange(from as int, i as int).drop_last() =~= s@.subrange(
                from as int,
                i as int - 1,
            ));
            assert(s@.subrange(from as int, i as int).last() == s@[i as int - 1]);
        }
        if acc > 0xFFFF_FFFFu64 {
            proof {
                let pre = s@.subrange(from as int, i as int);
                let suf = s@.subrange(i as int, to as int);
                assert(pre + suf =~= whole);
                assert(all_digits(suf)) by {
                    assert(forall|k: int|
                        0 <= k < suf.len() ==> #[trigger] suf[k] == whole[k + (i - from)]);
                }
                lemma_digits_val_concat(pre, suf);
                lemma_digits_val_bound(suf);
                lemma_pow10_pos(suf.len() as int);
                assert(digits_val(pre) * pow10(suf.len() as int) >= digits_val(pre))
                    by (nonlinear_arith)
                    requires
                        digits_val(pre) > u32::MAX,
                        pow10(suf.len() as int) >= 1,
                ;
            }
            return Err(ParseError::TooLarge);
        }
    }
    proof {
        assert(s@.subrange(from as int, i as int) =~= whole);
    }
    Ok(acc as u32)
}

/// Reads the optional fractional tail that starts at `from`: nothing, a lone
/// `.`, a `.` with one to three digits, or one to three bare digits. Returns
/// the milliseconds it denotes, or `None` where the tail fits no such shape.
fn parse_frac(s: &[u8], from: usize) -> (r: Option<u32>)
    requires
        from <= s@.len(),
    ensures
        match r {
            Some(v) => frac_ok(s@.skip(from as int)) && v == frac_ms(s@.skip(from as int)) && v
                < 1000,
            None => !frac_ok(s@.skip(from as int)),
        },
{
    let ghost t = s@.skip(from as int);
    let n = s.len();
    if from == n {
        return Some(0);
    }
    let start: usize = if s[from] == 46u8 {
        from + 1
    } else {
        from
    };
    let dlen = n - start;
    if dlen > 3 {
        return None;
    }
    let ghost d = s@.skip(start as int);
    proof {
        if s@[from as int] == 46u8 {
            assert(d =~= t.skip(1));
        } else {
            assert(d =~= t);
        }
    }
    let mut i = start;
    while i < n
        invariant
            start <= i <= n,
            n == s@.len(),
            from < n,
            from <= start <= from + 1,
            start == from + 1 <==> s@[from as int] == 46u8,
            t == s@.skip(from as int),
            d == s@.skip(start as int),
            forall|k: int| 0 <= k < i - start ==> is_digit(#[trigger] d[k]),
        decreases n - i,
    {
        if !digit_at(s, i) {
            proof {
                assert(d[i - start] == s@[i as int]);
                if s@[from as int] == 46u8 {
                    assert(d =~= t.skip(1));
                } else {
                    assert(d =~= t);
                    assert(t[0] == s@[from as int]);
                }
            }
            return None;
        }
        proof {
            assert(d[i - start] == s@[i as int]);
        }
        i = i + 1;
    }
    proof {
        assert(all_digits(d));
        assert(all_digits(s@.subrange(start as int, n as int))) by {
            assert(s@.subrange(start as int, n as int) =~= d);
        }
    }
    let v = match parse_digits(s, start, n) {
        Ok(v) => v,
        Err(_) => {
            proof {
                lemma_digits_val_bound(d);
                reveal_with_fuel(pow10, 5);
                assert(s@.subrange(start as int, n as int) =~= d);
                assert(false);
            }
            0
        },
    };
    proof {
        assert(s@.subrange(start as int, n as int) =~= d);
        lemma_digits_val_bound(d);
        reveal_with_fuel(pow10, 5);
    }
    let r: u32 = if dlen == 0 {
        0
    } else if dlen == 1 {
        v * 100
    } else if dlen == 2 {
        v * 10
    } else {
        v
    };
    proof {
        let dv = digits_val(d);
        reveal_with_fuel(pow10, 5);
        if d.len() == 0 {
            assert(dv * pow10(3) == 0) by (nonlinear_arith)
                requires
                    dv == 0,
            ;
        } else if d.len() == 1 {
            assert(dv * pow10(2) == dv * 100) by (nonlinear_arith)
                requires
                    pow10(2) == 100,
            ;
        } else if d.len() == 2 {
            assert(dv * pow10(1) == dv * 10) by (nonlinear_arith)
                requires
                    pow10(1) == 10,
            ;
        } else {
            assert(dv * pow10(0) == dv) by (nonlinear_arith)
                requires
                    pow10(0) == 1,
            ;
        }
        assert(r == scaled_ms(d));
        lemma_frac_ms_range(t);
    }
    Some(r)
}

impl Timestamp {
    /// Parses a textual timestamp.
    ///
    /// Succeeds exactly on text the grammar accepts whose total seconds fit
    /// in 32 bits, and then returns the denoted value. Text outside the
    /// grammar is `NotATimestamp`; text inside it with too many seconds is
    /// `TooLarge`.
    #[verifier::rlimit(60)]
    pub fn parse(s: &[u8]) -> (r: Result<Timestamp, ParseError>)
        ensures
            match r {
                Ok(t) => ts_fits(s@) && t == Timestamp::of_text(s@) && t.wf(),
                Err(e) => !ts_fits(s@) && (e is NotATimestamp <==> !ts_valid(s@)) && (e
                    is TooLarge <==> ts_valid(s@) && ts_secs(s@) > u32::MAX),
            },
    {
        let n = s.len();
        let mut p: usize = 0;
        while p < n && digit_at(s, p)
            invariant
                p <= n,
                n == s@.len(),
                forall|i: int| 0 <= i < p ==> is_digit(#[trigger] s@[i]),
            decreases n - p,
        {
            p = p + 1;
        }
        proof {
            lemma_digit_prefix_len_is(s@, p as int);
        }
        if p == 0 {
            return Err(ParseError::NotATimestamp);
        }
        proof {
            assert(all_digits(s@.subrange(0, p as int))) by {
                assert(forall|i: int|
                    0 <= i < p ==> #[trigger] s@.subrange(0, p as int)[i] == s@[i]);
            }
            assert(s@.take(p as int) =~= s@.subrange(0, p as int));
        }
        if p == n {
            proof {
                assert(s@.subrange(0, p as int) =~= s@);
                lemma_ts_ranges(s@);
            }
            return match parse_digits(s, 0, p) {
                Ok(v) => Ok(Timestamp { seconds: v, milliseconds: 0 }),
                Err(e) => Err(e),
            };
        }
        let sep = s[p];
        if sep == 46u8 {
            // seconds with a fractional tail
            let ms = match parse_frac(s, p) {
                Some(ms) => ms,
                None => {
                    return Err(ParseError::NotATimestamp);
                },
            };
            proof {
                lemma_ts_ranges(s@);
            }
            match parse_digits(s, 0, p) {
                Ok(v) => Ok(Timestamp { seconds: v, milliseconds: ms }),
                Err(e) => Err(e),
            }
        } else if sep == 58u8 {
            // minutes:seconds, perhaps hours:minutes:seconds
            if n - (p + 1) < 2 {
                return Err(ParseError::NotATimestamp);
            }
            if !digit_at(s, p + 1) || !digit_at(s, p + 2) {
                return Err(ParseError::NotATimestamp);
            }
            let ghost rr = s@.skip(p as int + 1);
            proof {
                assert(rr[0] == s@[p as int + 1]);
                assert(rr[1] == s@[p as int + 2]);
                assert(all_digits(s@.subrange(p as int + 1, p as int + 3))) by {
                    assert(forall|i: int|
                        0 <= i < 2 ==> #[trigger] s@.subrange(p as int + 1, p as int + 3)[i]
                            == s@[p as int + 1 + i]);
                }
                assert(rr.take(2) =~= s@.subrange(p as int + 1, p as int + 3));
            }
            let mm = match parse_digits(s, p + 1, p + 3) {
                Ok(v) => v,
                Err(_) => {
                    proof {
                        lemma_digits_val_bound(rr.take(2));
                        reveal_with_fuel(pow10, 5);
                        assert(false);
                    }
                    0
                },
            };
            proof {
                assert(rr.skip(2) =~= s@.skip(p as int + 3));
            }
            match parse_frac(s, p + 3) {
                Some(ms) => {
                    // minutes:seconds
                    proof {
                        lemma_ts_ranges(s@);
                    }
                    let m1 = match parse_digits(s, 0, p) {
                        Ok(v) => v,
                        Err(e) => {
                            proof {
                                ts_secs_at_least_first_field(s@, p as int);
                            }
                            return Err(e);
                        },
                    };
                    let total: u64 = 60 * (m1 as u64) + (mm as u64);
                    if total > 0xFFFF_FFFFu64 {
                        Err(ParseError::TooLarge)
                    } else {
                        Ok(Timestamp { seconds: total as u32, milliseconds: ms })
                    }
                },
                None => {
                    if p + 3 < n && s[p + 3] == 58u8 {
                        // hours:minutes:seconds
                        let q = p + 4;
                        if n - q < 2 {
                            return Err(ParseError::NotATimestamp);
                        }
                        if !digit_at(s, q) || !digit_at(s, q + 1) {
                            return Err(ParseError::NotATimestamp);
                        }
                        let ghost r2 = s@.skip(q as int);
                        proof {
                            assert(s@.skip(p as int + 3)[0] == s@[p as int + 3]);
                            assert(r2 =~= s@.skip(p as int + 3).skip(1));
                            assert(r2[0] == s@[q as int]);
                            assert(r2[1] == s@[q as int + 1]);
                            assert(all_digits(s@.subrange(q as int, q as int + 2))) by {
                                assert(forall|i: int|
                                    0 <= i < 2 ==> #[trigger] s@.subrange(
                                        q as int,
                                        q as int + 2,
                                    )[i] == s@[q as int + i]);
                            }
                            assert(r2.take(2) =~= s@.subrange(q as int, q as int + 2));
                        }
                        let ss = match parse_digits(s, q, q + 2) {
                            Ok(v) => v,
                            Err(_) => {
                                proof {
                                    lemma_digits_val_bound(r2.take(2));
                                    reveal_with_fuel(pow10, 5);
                                    assert(false);
                                }
                                0
                            },
                        };
                        proof {
                            assert(r2.skip(2) =~= s@.skip(q as int + 2));
                        }
                        let ms = match parse_frac(s, q + 2) {
                            Some(ms) => ms,
                            None => {
                                return Err(ParseError::NotATimestamp);
                            },
                        };
                        proof {
                            lemma_ts_ranges(s@);
                        }
                        let hh = match parse_digits(s, 0, p) {
                            Ok(v) => v,
                            Err(e) => {
                                proof {
                                    ts_secs_at_least_first_field(s@, p as int);
                                }
                                return Err(e);
                            },
                        };
                        let total: u64 = 3600 * (hh as u64) + 60 * (mm as u64) + (ss as u64);
                        if total > 0xFFFF_FFFFu64 {
                            Err(ParseError::TooLarge)
                        } else {
                            Ok(Timestamp { seconds: total as u32, milliseconds: ms })
                        }
                    } else {
                        Err(ParseError::NotATimestamp)
                    }
                },
            }
        } else {
            Err(ParseError::NotATimestamp)
        }
    }
}

/// In the colon formats the total seconds weigh the first field by sixty or
/// thirty-six hundred, so a first field beyond 32 bits puts the total beyond
/// them too.
proof fn ts_secs_at_least_first_field(s: Seq<u8>, p: int)
    requires
        ts_valid(s),
        p == digit_prefix_len(s),
        0 < p < s.len(),
        s[p] == 58u8,
    ensures
        ts_secs(s) >= digits_val(s.take(p)),
{
    lemma_digit_prefix_len(s);
    let m1 = digits_val(s.take(p));
    assert(all_digits(s.take(p))) by {
        assert(forall|i: int| 0 <= i < p ==> #[trigger] s.take(p)[i] == s[i]);
    }
    lemma_digits_val_bound(s.take(p));
    let r = s.skip(p + 1);
    assert(all_digits(r.take(2))) by {
        assert(forall|i: int| 0 <= i < 2 ==> #[trigger] r.take(2)[i] == r[i]);
    }
    lemma_digits_val_bound(r.take(2));
    let t2 = r.skip(2);
    if frac_ok(t2) {
        assert(60 * m1 >= m1) by (nonlinear_arith)
            requires
                m1 >= 0,
        ;
    } else {
        let r2 = t2.skip(1);
        assert(all_digits(r2.take(2))) by {
            assert(forall|i: int| 0 <= i < 2 ==> #[trigger] r2.take(2)[i] == r2[i]);
        }
        lemma_digits_val_bound(r2.take(2));
        assert(3600 * m1 >= m1) by (nonlinear_arith)
            requires
                m1 >= 0,
        ;
        assert(60 * digits_val(r.take(2)) >= 0) by (nonlinear_arith)
            requires
                digits_val(r.take(2)) >= 0,
        ;
    }
}

/// A timestamp written out in full: `H:MM:SS.mmm`, the hours unpadded, the
/// minutes and seconds two digits, the milliseconds three.
pub open spec fn hms_text(h: int, m: int, s: int, ms: int) -> Seq<u8> {
    dec_digits(h as nat) + seq![58u8] + zero_pad(dec_digits(m as nat), 2) + seq![58u8]
        + zero_pad(dec_digits(s as nat), 2) + seq![46u8] + zero_pad(dec_digits(ms as nat), 3)
}

/// Writes a timestamp out in full, hours, minutes, seconds and
/// milliseconds, as [`hms_text`] lays it out.
pub fn format_hms(h: u32, m: u32, s: u32, ms: u32) -> (r: Vec<u8>)
    ensures
        r@ == hms_text(h as int, m as int, s as int, ms as int),
{
    let mut out = u64_to_dec(h as u64);
    out.push(58u8);
    let mp = pad_zeros(u64_to_dec(m as u64), 2);
    push_all(&mut out, mp.as_slice());
    out.push(58u8);
    let sp = pad_zeros(u64_to_dec(s as u64), 2);
    push_all(&mut out, sp.as_slice());
    out.push(46u8);
    let xp = pad_zeros(u64_to_dec(ms as u64), 3);
    push_all(&mut out, xp.as_slice());
    proof {
        assert(out@ =~= hms_text(h as int, m as int, s as int, ms as int));
    }
    out
}

/// Round trip: writing out any time with two-digit minutes and seconds
/// fields and milliseconds below a thousand, then reading it back, yields
/// the same normalized value.
pub proof fn lemma_hms_round_trip(h: int, m: int, s: int, ms: int)
    requires
        0 <= h,
        0 <= m <= 99,
        0 <= s <= 99,
        0 <= ms <= 999,
    ensures
        ts_valid(hms_text(h, m, s, ms)),
        ts_secs(hms_text(h, m, s, ms)) == 3600 * h + 60 * m + s,
        ts_ms(hms_text(h, m, s, ms)) == ms,
{
    reveal_with_fuel(pow10, 5);
    let hd = dec_digits(h as nat);
    let md = zero_pad(dec_digits(m as nat), 2);
    let sd = zero_pad(dec_digits(s as nat), 2);
    let xd = zero_pad(dec_digits(ms as nat), 3);
    lemma_dec_digits(h as nat);
    lemma_dec_digits(m as nat);
    lemma_dec_digits(s as nat);
    lemma_dec_digits(ms as nat);
    lemma_dec_digits_len(m as nat, 2);
    lemma_dec_digits_len(s as nat, 2);
    lemma_dec_digits_len(ms as nat, 3);
    lemma_zero_pad(dec_digits(m as nat), 2);
    lemma_zero_pad(dec_digits(s as nat), 2);
    lemma_zero_pad(dec_digits(ms as nat), 3);
    assert(md.len() == 2 && sd.len() == 2 && xd.len() == 3);
    let f = hms_text(h, m, s, ms);
    let p = hd.len() as int;
    let rest3 = seq![46u8] + xd;
    let rest2 = seq![58u8] + (sd + rest3);
    let rr = md + rest2;
    assert(f =~= hd + (seq![58u8] + rr));
    assert forall|i: int| 0 <= i < p implies is_digit(#[trigger] f[i]) by {
        assert(f[i] == hd[i]);
    }
    assert(f[p] == 58u8);
    lemma_digit_prefix_len_is(f, p);
    assert(f.take(p) =~= hd);
    assert(f.skip(p + 1) =~= rr);
    assert(rr[0] == md[0] && rr[1] == md[1]);
    assert(is_digit(rr[0]) && is_digit(rr[1]));
    assert(rr.take(2) =~= md);
    let t2 = rr.skip(2);
    assert(t2 =~= rest2);
    assert(t2.len() == 7);
    assert(t2[0] == 58u8);
    assert(!frac_ok(t2));
    let r2 = t2.skip(1);
    assert(r2 =~= sd + rest3);
    assert(r2[0] == sd[0] && r2[1] == sd[1]);
    assert(is_digit(r2[0]) && is_digit(r2[1]));
    assert(r2.take(2) =~= sd);
    let ft = r2.skip(2);
    assert(ft =~= rest3);
    assert(ft[0] == 46u8 && ft.len() == 4);
    assert(ft.skip(1) =~= xd);
    assert(frac_ok(ft));
    assert(frac_ms(ft) == scaled_ms(xd));
    assert(digits_val(xd) * pow10(0) == digits_val(xd)) by (nonlinear_arith)
        requires
            pow10(0) == 1,
    ;
    assert(frac_ms(ft) == ms);
    assert(ts_model(f) == (true, 3600 * h + 60 * m + s, ms));
}

} // verus!
