//! The extraction plan: for each sorted span, the output filename and the
//! seek and duration arguments handed to the external media tool.

use vstd::prelude::*;

use crate::digits::dec_digits;
use crate::digits::last_pos;
use crate::digits::pad_zeros;
use crate::digits::u64_to_dec;
use crate::digits::zero_pad;
use crate::naming::clip_filename;
use crate::naming::clip_name;
use crate::naming::ext_of;
use crate::naming::split_extension;
use crate::naming::stem_of;
use crate::span::Span;
use crate::timestamp::Timestamp;

verus! {

/// Seconds and milliseconds as `"<seconds>.<milliseconds>"`, the
/// milliseconds zero-padded to three digits.
pub open spec fn sec_ms_text(secs: int, ms: int) -> Seq<u8> {
    dec_digits(secs as nat) + seq![46u8] + zero_pad(dec_digits(ms as nat), 3)
}

/// The seek argument: the span's start, seconds dot milliseconds.
pub open spec fn seek_text(t: Timestamp) -> Seq<u8> {
    sec_ms_text(t.seconds as int, t.milliseconds as int)
}

/// Total duration of a span in milliseconds, as handed to the external
/// tool. The subtraction binds only to the start's whole seconds: the
/// start's milliseconds are *added*, not subtracted, so the value
/// overshoots the plain end-minus-start difference by twice the start's
/// milliseconds. The asymmetry is deliberate — the exact argument strings,
/// not the plain difference, are the behaviour callers depend on.
pub open spec fn span_total_ms(sp: Span) -> int {
    (sp.end.seconds * 1000 + sp.end.milliseconds) - sp.start.seconds * 1000
        + sp.start.milliseconds
}

/// The duration argument: [`span_total_ms`] split into seconds dot
/// milliseconds.
pub open spec fn duration_text(sp: Span) -> Seq<u8> {
    sec_ms_text(span_total_ms(sp) / 1000, span_total_ms(sp) % 1000)
}

/// A span that starts no later than it ends has a nonnegative duration.
pub proof fn lemma_span_total_ms_nonneg(sp: Span)
    requires
        sp.wf(),
    ensures
        span_total_ms(sp) >= 0,
{
}

/// One planned invocation of the external tool: write `filename`, seeking
/// to `seek` and copying `duration` worth of stream.
#[derive(Debug, PartialEq, Eq)]
pub struct Invocation {
    /// The output filename for this clip.
    pub filename: Vec<u8>,
    /// The seek offset, seconds dot milliseconds.
    pub seek: Vec<u8>,
    /// The duration to copy, seconds dot milliseconds.
    pub duration: Vec<u8>,
}

/// Formats seconds and milliseconds as the tool arguments are written.
fn sec_ms_vec(secs: u64, ms: u64) -> (r: Vec<u8>)
    ensures
        r@ == sec_ms_text(secs as int, ms as int),
{
    let mut out = u64_to_dec(secs);
    out.push(46u8);
    let ghost mid = out@;
    let padded = pad_zeros(u64_to_dec(ms), 3);
    let mut k: usize = 0;
    while k < padded.len()
        invariant
            k <= padded@.len(),
            out@ =~= mid + padded@.take(k as int),
            mid == dec_digits(secs as nat).push(46u8),
        decreases padded@.len() - k,
    {
        out.push(padded[k]);
        k = k + 1;
        proof {
            assert(padded@.take(k as int) =~= padded@.take(k as int - 1).push(
                padded@[k as int - 1],
            ));
            assert(mid + padded@.take(k as int) =~= (mid + padded@.take(k as int - 1)).push(
                padded@[k as int - 1],
            ));
        }
    }
    proof {
        assert(padded@.take(padded@.len() as int) =~= padded@);
        assert(out@ =~= sec_ms_text(secs as int, ms as int));
    }
    out
}

/// Computes the seek and duration arguments for one span.
pub fn extraction_strings(sp: &Span) -> (r: (Vec<u8>, Vec<u8>))
    requires
        sp.wf(),
    ensures
        r.0@ == seek_text(sp.start),
        r.1@ == duration_text(*sp),
{
    let seek = sec_ms_vec(sp.start.seconds as u64, sp.start.milliseconds as u64);
    let end_total: u64 = (sp.end.seconds as u64) * 1000 + (sp.end.milliseconds as u64);
    let total: u64 = end_total - (sp.start.seconds as u64) * 1000 + (
    sp.start.milliseconds as u64);
    let duration = sec_ms_vec(total / 1000, total % 1000);
    (seek, duration)
}

/// Builds the whole extraction plan from the sorted spans and the name the
/// output is based on. Fails exactly when that name has no `.`; otherwise
/// each span yields one invocation, named for its position in the list.
pub fn build_plan(spans: &Vec<Span>, output_name: &[u8]) -> (r: Option<Vec<Invocation>>)
    requires
        forall|i: int| 0 <= i < spans@.len() ==> (#[trigger] spans@[i]).wf(),
    ensures
        match r {
            Some(p) => {
                &&& last_pos(output_name@, 46u8) >= 0
                &&& p@.len() == spans@.len()
                &&& forall|i: int|
                    0 <= i < p@.len() ==> (#[trigger] p@[i]).filename@ == clip_name(
                        stem_of(output_name@),
                        ext_of(output_name@),
                        i,
                        spans@.len() as int,
                    )
                &&& forall|i: int|
                    0 <= i < p@.len() ==> (#[trigger] p@[i]).seek@ == seek_text(
                        spans@[i].start,
                    )
                &&& forall|i: int|
                    0 <= i < p@.len() ==> (#[trigger] p@[i]).duration@ == duration_text(
                        spans@[i],
                    )
            },
            None => last_pos(output_name@, 46u8) < 0,
        },
{
    let parts = match split_extension(output_name) {
        Some(parts) => parts,
        None => {
            return None;
        },
    };
    let (stem, ext) = parts;
    let count = spans.len();
    let mut plan: Vec<Invocation> = Vec::new();
    let mut i: usize = 0;
    while i < count
        invariant
            i <= count,
            count == spans@.len(),
            forall|k: int| 0 <= k < spans@.len() ==> (#[trigger] spans@[k]).wf(),
            stem@ == stem_of(output_name@),
            ext@ == ext_of(output_name@),
            plan@.len() == i,
            forall|k: int|
                0 <= k < i ==> (#[trigger] plan@[k]).filename@ == clip_name(
                    stem_of(output_name@),
                    ext_of(output_name@),
                    k,
                    spans@.len() as int,
                ),
            forall|k: int|
                0 <= k < i ==> (#[trigger] plan@[k]).seek@ == seek_text(spans@[k].start),
            forall|k: int|
                0 <= k < i ==> (#[trigger] plan@[k]).duration@ == duration_text(spans@[k]),
        decreases count - i,
    {
        let filename = clip_filename(stem.as_slice(), ext.as_slice(), i, count);
        let sp = spans[i];
        let (seek, duration) = extraction_strings(&sp);
        plan.push(Invocation { filename, seek, duration });
        i = i + 1;
    }
    Some(plan)
}

} // verus!

