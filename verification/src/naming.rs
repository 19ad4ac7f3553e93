//! Deriving the per-clip output filenames.
//!
//! The base name splits at its last `.` into stem and extension. A single
//! clip is named `stem_clip.ext`; several clips are `stem_clip<i>.ext` with
//! the zero-based index zero-padded to the width [`log10_ceil_spec`] gives
//! for the clip count.

use vstd::prelude::*;

use crate::digits::dec_digits;
use crate::digits::last_pos;
use crate::digits::lemma_last_pos_is;
use crate::digits::lemma_last_pos_none;
use crate::digits::pad_zeros;
use crate::digits::pow10;
use crate::digits::push_all;
use crate::digits::u64_to_dec;
use crate::digits::zero_pad;

verus! {

/// The padding width used for clip indices: 1 digit up to ten clips, one
/// more for each further power of ten, growing only once the count passes
/// the power (so ten clips still pad to one digit).
pub open spec fn log10_ceil_spec(n: int) -> int
    decreases n,
{
    if n > 10 {
        1 + log10_ceil_spec(n / 10)
    } else {
        1
    }
}

/// The width is at least one digit.
pub proof fn lemma_log10_ceil_at_least_one(n: int)
    ensures
        log10_ceil_spec(n) >= 1,
    decreases n,
{
    if n > 10 {
        lemma_log10_ceil_at_least_one(n / 10);
    }
}

/// A count below `10^k` pads to at most `k` digits.
pub proof fn lemma_log10_ceil_bound(n: int, k: int)
    requires
        k >= 1,
        n < pow10(k),
    ensures
        log10_ceil_spec(n) <= k,
    decreases k,
{
    if n > 10 {
        assert(pow10(k) == 10 * pow10(k - 1));
        if k == 1 {
            reveal_with_fuel(pow10, 3);
        }
        lemma_log10_ceil_bound(n / 10, k - 1);
    }
}

/// Number of digits the clip indices are padded to, for `n` clips.
pub fn log10_ceil(n: usize) -> (r: usize)
    ensures
        r as int == log10_ceil_spec(n as int),
{
    let ghost n0 = n as int;
    proof {
        reveal_with_fuel(pow10, 21);
        assert((usize::MAX as int) < pow10(20));
        lemma_log10_ceil_bound(n0, 20);
        lemma_log10_ceil_at_least_one(n0);
    }
    let mut n = n;
    let mut digits: usize = 1;
    while n > 10
        invariant
            digits >= 1,
            log10_ceil_spec(n0) == digits - 1 + log10_ceil_spec(n as int),
            log10_ceil_spec(n0) <= 20,
            log10_ceil_spec(n as int) >= 1,
        decreases n,
    {
        n = n / 10;
        digits = digits + 1;
        proof {
            lemma_log10_ceil_at_least_one(n as int);
        }
    }
    digits
}

/// The stem of a filename: what stands before its last `.`.
pub open spec fn stem_of(name: Seq<u8>) -> Seq<u8> {
    name.take(last_pos(name, 46u8))
}

/// The extension of a filename: what stands after its last `.`.
pub open spec fn ext_of(name: Seq<u8>) -> Seq<u8> {
    name.skip(last_pos(name, 46u8) + 1)
}

/// Splits a filename at its last `.` into stem and extension. A name
/// without a `.` has no extension and is rejected.
pub fn split_extension(name: &[u8]) -> (r: Option<(Vec<u8>, Vec<u8>)>)
    ensures
        match r {
            Some(parts) => last_pos(name@, 46u8) >= 0 && parts.0@ == stem_of(name@) && parts.1@
                == ext_of(name@),
            None => last_pos(name@, 46u8) < 0,
        },
{
    let n = name.len();
    let mut i: usize = 0;
    let mut dot: usize = 0;
    let mut found = false;
    while i < n
        invariant
            i <= n,
            n == name@.len(),
            found ==> dot < i && name@[dot as int] == 46u8 && forall|k: int|
                dot < k < i ==> name@[k] != 46u8,
            !found ==> forall|k: int| 0 <= k < i ==> name@[k] != 46u8,
        decreases n - i,
    {
        if name[i] == 46u8 {
            dot = i;
            found = true;
        }
        i = i + 1;
    }
    if !found {
        proof {
            lemma_last_pos_none(name@, 46u8);
        }
        return None;
    }
    proof {
        lemma_last_pos_is(name@, 46u8, dot as int);
    }
    let mut stem: Vec<u8> = Vec::new();
    let mut j: usize = 0;
    while j < dot
        invariant
            j <= dot <= name@.len(),
            stem@ =~= name@.subrange(0, j as int),
        decreases dot - j,
    {
        stem.push(name[j]);
        j = j + 1;
        proof {
            assert(name@.subrange(0, j as int) =~= name@.subrange(0, j as int - 1).push(
                name@[j as int - 1],
            ));
        }
    }
    let mut ext: Vec<u8> = Vec::new();
    let mut k: usize = dot + 1;
    while k < n
        invariant
            dot as int + 1 <= k as int <= n as int,
            n == name@.len(),
            ext@ =~= name@.subrange(dot as int + 1, k as int),
        decreases n - k,
    {
        ext.push(name[k]);
        k = k + 1;
        proof {
            assert(name@.subrange(dot as int + 1, k as int) =~= name@.subrange(
                dot as int + 1,
                k as int - 1,
            ).push(name@[k as int - 1]));
        }
    }
    proof {
        assert(stem@ =~= stem_of(name@));
        assert(ext@ =~= ext_of(name@));
    }
    Some((stem, ext))
}

/// The marker put between the stem and the index or extension.
pub open spec fn clip_tag() -> Seq<u8> {
    seq![95u8, 99u8, 108u8, 105u8, 112u8]
}

/// The output filename for the clip at `index` out of `count`: the lone
/// clip is `stem_clip.ext`; otherwise `stem_clip<index>.ext`, the index
/// zero-padded to the width for `count`.
pub open spec fn clip_name(stem: Seq<u8>, ext: Seq<u8>, index: int, count: int) -> Seq<u8> {
    if count == 1 {
        stem + clip_tag() + seq![46u8] + ext
    } else {
        stem + clip_tag() + zero_pad(dec_digits(index as nat), log10_ceil_spec(count))
            + seq![46u8] + ext
    }
}

/// Builds the output filename for one clip.
pub fn clip_filename(stem: &[u8], ext: &[u8], index: usize, count: usize) -> (r: Vec<u8>)
    ensures
        r@ == clip_name(stem@, ext@, index as int, count as int),
{
    let mut out: Vec<u8> = Vec::new();
    push_all(&mut out, stem);
    let tag: [u8; 5] = [95u8, 99u8, 108u8, 105u8, 112u8];
    push_all(&mut out, &tag);
    proof {
        assert(tag@ =~= clip_tag());
    }
    if count != 1 {
        let width = log10_ceil(count);
        let padded = pad_zeros(u64_to_dec(index as u64), width);
        push_all(&mut out, padded.as_slice());
    }
    out.push(46u8);
    push_all(&mut out, ext);
    proof {
        assert(out@ =~= clip_name(stem@, ext@, index as int, count as int));
    }
    out
}

} // verus!
