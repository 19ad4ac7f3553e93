//! Decimal digit strings as byte sequences: their numeric value, the decimal
//! representation of a number, and zero padding. These are the building
//! blocks shared by the timestamp grammar and the output formatting.

use vstd::prelude::*;

verus! {

/// True of the ASCII bytes `'0'` through `'9'`.
pub open spec fn is_digit(b: u8) -> bool {
    48u8 <= b && b <= 57u8
}

/// Every byte of `s` is a decimal digit.
pub open spec fn all_digits(s: Seq<u8>) -> bool {
    forall|i: int| 0 <= i < s.len() ==> is_digit(#[trigger] s[i])
}

/// Numeric value of a digit string, most significant digit first.
pub open spec fn digits_val(s: Seq<u8>) -> int
    decreases s.len(),
{
    if s.len() == 0 {
        0
    } else {
        digits_val(s.drop_last()) * 10 + (s.last() - 48u8)
    }
}

/// `10^k` (1 for `k <= 0`).
pub open spec fn pow10(k: int) -> int
    decreases k,
{
    if k <= 0 {
        1
    } else {
        10 * pow10(k - 1)
    }
}

/// Shortest decimal representation of `n`, as ASCII bytes.
pub open spec fn dec_digits(n: nat) -> Seq<u8>
    decreases n,
{
    if n < 10 {
        seq![(48u8 + n) as u8]
    } else {
        dec_digits(n / 10).push((48u8 + n % 10) as u8)
    }
}

/// `s` left-padded with `'0'` bytes up to width `w`; `s` unchanged if already
/// at least that wide.
pub open spec fn zero_pad(s: Seq<u8>, w: int) -> Seq<u8> {
    if s.len() >= w {
        s
    } else {
        Seq::new((w - s.len()) as nat, |i: int| 48u8) + s
    }
}

pub proof fn lemma_pow10_pos(k: int)
    ensures
        pow10(k) >= 1,
    decreases k,
{
    if k > 0 {
        lemma_pow10_pos(k - 1);
    }
}

/// The value of a digit string is nonnegative and below `10^len`.
pub proof fn lemma_digits_val_bound(s: Seq<u8>)
    requires
        all_digits(s),
    ensures
        0 <= digits_val(s) < pow10(s.len() as int),
    decreases s.len(),
{
    if s.len() == 0 {
    } else {
        assert(all_digits(s.drop_last()));
        lemma_digits_val_bound(s.drop_last());
    }
}

/// Concatenation of digit strings: the left part is scaled by `10^|b|`.
pub proof fn lemma_digits_val_concat(a: Seq<u8>, b: Seq<u8>)
    ensures
        digits_val(a + b) == digits_val(a) * pow10(b.len() as int) + digits_val(b),
    decreases b.len(),
{
    if b.len() == 0 {
        assert(a + b =~= a);
    } else {
        lemma_digits_val_concat(a, b.drop_last());
        assert((a + b).drop_last() =~= a + b.drop_last());
        assert((a + b).last() == b.last());
        let p = pow10(b.len() as int - 1);
        assert(digits_val(a + b) == (digits_val(a) * p + digits_val(b.drop_last())) * 10 + (
        b.last() - 48u8)) by {
            assert(digits_val(a + b) == digits_val((a + b).drop_last()) * 10 + ((a + b).last()
                - 48u8));
        }
        assert((digits_val(a) * p) * 10 == digits_val(a) * (p * 10)) by (nonlinear_arith);
    }
}

/// The decimal representation is made of digits, is nonempty, and reads back
/// to the number it was made from.
pub proof fn lemma_dec_digits(n: nat)
    ensures
        all_digits(dec_digits(n)),
        dec_digits(n).len() >= 1,
        digits_val(dec_digits(n)) == n,
    decreases n,
{
    if n < 10 {
        assert(dec_digits(n) =~= seq![(48u8 + n) as u8]);
        assert(dec_digits(n).drop_last() =~= Seq::<u8>::empty());
        assert(dec_digits(n).last() == (48u8 + n) as u8);
        assert(48u8 + n <= 57u8);
        assert((48u8 + n) as u8 - 48u8 == n);
        assert(digits_val(dec_digits(n)) == digits_val(Seq::<u8>::empty()) * 10 + ((48u8 + n) as u8
            - 48u8));
    } else {
        lemma_dec_digits(n / 10);
        let s = dec_digits(n / 10).push((48u8 + n % 10) as u8);
        assert(s.drop_last() =~= dec_digits(n / 10));
        assert(s.last() == (48u8 + n % 10) as u8);
        assert(n % 10 < 10);
        assert((48u8 + n % 10) as u8 - 48u8 == n % 10);
        assert(digits_val(s) == (n / 10) * 10 + n % 10);
        assert(n == (n / 10) * 10 + n % 10) by (nonlinear_arith);
        assert(all_digits(s)) by {
            assert(forall|i: int|
                0 <= i < s.len() - 1 ==> #[trigger] s[i] == dec_digits(n / 10)[i]);
        }
    }
}

/// `n < 10^k` means its decimal representation has at most `k` digits.
pub proof fn lemma_dec_digits_len(n: nat, k: int)
    requires
        k >= 1,
        n < pow10(k),
    ensures
        dec_digits(n).len() <= k,
    decreases k,
{
    if n < 10 {
    } else {
        assert(k >= 2) by {
            reveal_with_fuel(pow10, 3);
            if k == 1 {
                assert(pow10(1) == 10);
            }
        }
        assert(n / 10 < pow10(k - 1)) by {
            assert(pow10(k) == 10 * pow10(k - 1));
        }
        lemma_dec_digits_len(n / 10, k - 1);
    }
}

/// Zero padding keeps the digit property and the numeric value, and reaches
/// the requested width.
pub proof fn lemma_zero_pad(s: Seq<u8>, w: int)
    requires
        all_digits(s),
    ensures
        all_digits(zero_pad(s, w)),
        digits_val(zero_pad(s, w)) == digits_val(s),
        zero_pad(s, w).len() == if s.len() >= w {
            s.len() as int
        } else {
            w
        },
{
    if s.len() < w {
        let z = Seq::new((w - s.len()) as nat, |i: int| 48u8);
        lemma_zeros_val(z);
        lemma_digits_val_concat(z, s);
    }
}

proof fn lemma_zeros_val(z: Seq<u8>)
    requires
        forall|i: int| 0 <= i < z.len() ==> z[i] == 48u8,
    ensures
        digits_val(z) == 0,
        all_digits(z),
    decreases z.len(),
{
    if z.len() > 0 {
        lemma_zeros_val(z.drop_last());
    }
}

/// Index of the last occurrence of `b` in `s`, or `-1` when `s` has none.
pub open spec fn last_pos(s: Seq<u8>, b: u8) -> int
    decreases s.len(),
{
    if s.len() == 0 {
        -1
    } else if s.last() == b {
        s.len() - 1
    } else {
        last_pos(s.drop_last(), b)
    }
}

/// A position holding `b` with none of `b` after it is the last
/// occurrence.
pub proof fn lemma_last_pos_is(s: Seq<u8>, b: u8, d: int)
    requires
        0 <= d < s.len(),
        s[d] == b,
        forall|i: int| d < i < s.len() ==> s[i] != b,
    ensures
        last_pos(s, b) == d,
    decreases s.len(),
{
    if d == s.len() - 1 {
    } else {
        assert(s.last() != b);
        assert(forall|i: int|
            0 <= i < s.len() - 1 ==> #[trigger] s.drop_last()[i] == s[i]);
        lemma_last_pos_is(s.drop_last(), b, d);
    }
}

/// A string without `b` has no last occurrence of it.
pub proof fn lemma_last_pos_none(s: Seq<u8>, b: u8)
    requires
        forall|i: int| 0 <= i < s.len() ==> s[i] != b,
    ensures
        last_pos(s, b) == -1,
    decreases s.len(),
{
    if s.len() > 0 {
        assert(forall|i: int|
            0 <= i < s.len() - 1 ==> #[trigger] s.drop_last()[i] == s[i]);
        lemma_last_pos_none(s.drop_last(), b);
    }
}

/// Appends every byte of `s` to `v`.
pub fn push_all(v: &mut Vec<u8>, s: &[u8])
    ensures
        final(v)@ == old(v)@ + s@,
{
    let mut i: usize = 0;
    while i < s.len()
        invariant
            i <= s@.len(),
            v@ =~= old(v)@ + s@.take(i as int),
        decreases s@.len() - i,
    {
        v.push(s[i]);
        i = i + 1;
        proof {
            assert(s@.take(i as int) =~= s@.take(i as int - 1).push(s@[i as int - 1]));
            assert(old(v)@ + s@.take(i as int) =~= (old(v)@ + s@.take(i as int - 1)).push(
                s@[i as int - 1],
            ));
        }
    }
    proof {
        assert(s@.take(s@.len() as int) =~= s@);
    }
}

/// Converts one number to its decimal digit string.
pub fn u64_to_dec(n: u64) -> (r: Vec<u8>)
    ensures
        r@ == dec_digits(n as nat),
    decreases n,
{
    if n < 10 {
        let mut v: Vec<u8> = Vec::new();
        v.push(48u8 + (n as u8));
        proof {
            assert(v@ =~= dec_digits(n as nat));
        }
        v
    } else {
        let mut v = u64_to_dec(n / 10);
        v.push(48u8 + ((n % 10) as u8));
        v
    }
}

/// Left-pads a digit string with `'0'` bytes to at least `width` bytes.
pub fn pad_zeros(s: Vec<u8>, width: usize) -> (r: Vec<u8>)
    ensures
        r@ == zero_pad(s@, width as int),
{
    if s.len() >= width {
        s
    } else {
        let mut v: Vec<u8> = Vec::new();
        let pad: usize = width - s.len();
        let mut i: usize = 0;
        while i < pad
            invariant
                i <= pad,
                v@ =~= Seq::new(i as nat, |j: int| 48u8),
            decreases pad - i,
        {
            v.push(48u8);
            i = i + 1;
        }
        let mut j: usize = 0;
        while j < s.len()
            invariant
                j <= s@.len(),
                v@ =~= Seq::new(pad as nat, |j: int| 48u8) + s@.take(j as int),
                pad == width - s@.len(),
                s@.len() < width,
            decreases s.len() - j,
        {
            v.push(s[j]);
            j = j + 1;
            proof {
                assert(s@.take(j as int) =~= s@.take(j as int - 1).push(s@[j as int - 1]));
            }
        }
        proof {
            assert(s@.take(s@.len() as int) =~= s@);
            assert(v@ =~= zero_pad(s@, width as int));
        }
        v
    }
}

} // verus!
