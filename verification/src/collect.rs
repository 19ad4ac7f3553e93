//! Gathering spans from file lines and command-line values, and sorting
//! them ascending by `(start, end)`.

use vstd::prelude::*;
use vstd::seq_lib::group_to_multiset_ensures;
use vstd::seq_lib::to_multiset_insert;

use crate::errors::ParseError;
use crate::span::Span;
use crate::span::span_err;
use crate::span::span_of;
use crate::span::span_ok;

verus! {

/// Ascending by the span order; ties (fully equal spans) may stand in any
/// of their equal positions.
pub open spec fn spans_sorted(s: Seq<Span>) -> bool {
    forall|i: int, j: int| 0 <= i < j < s.len() ==> s[i].le_spec(s[j])
}

/// The byte strings a list of lines holds.
pub open spec fn views_of(lines: Seq<Vec<u8>>) -> Seq<Seq<u8>> {
    lines.map_values(|l: Vec<u8>| l@)
}

/// The spans a list of well-formed lines denotes, in the lines' order.
pub open spec fn spans_of(lines: Seq<Seq<u8>>) -> Seq<Span> {
    lines.map_values(|l: Seq<u8>| span_of(l))
}

/// Every line of the list is a well-formed span.
pub open spec fn all_spans_ok(lines: Seq<Seq<u8>>) -> bool {
    forall|i: int| 0 <= i < lines.len() ==> span_ok(#[trigger] lines[i])
}

/// The first line that failed to parse: where it came from, its position
/// there, and why it was rejected.
#[derive(Clone, Copy, Debug, PartialEq, Eq, Structural)]
pub struct BadSpan {
    /// True when the line came from the timestamps file, false when it was
    /// a command-line value.
    pub from_file: bool,
    /// Position within its list.
    pub index: usize,
    /// Why the line was rejected.
    pub error: ParseError,
}

/// Inserts `x` into a sorted vector, keeping it sorted.
fn insert_sorted(v: &mut Vec<Span>, x: Span)
    requires
        spans_sorted(old(v)@),
    ensures
        spans_sorted(final(v)@),
        final(v)@.to_multiset() == old(v)@.to_multiset().insert(x),
        forall|i: int|
            0 <= i < final(v)@.len() ==> old(v)@.contains(#[trigger] final(v)@[i])
                || final(v)@[i] == x,
{
    let mut j: usize = 0;
    while j < v.len() && v[j].le(&x)
        invariant
            j <= v@.len(),
            spans_sorted(v@),
            v@ == old(v)@,
            forall|k: int| 0 <= k < j ==> (#[trigger] v@[k]).le_spec(x),
        decreases v@.len() - j,
    {
        j = j + 1;
    }
    proof {
        if j < v@.len() {
            assert(!v@[j as int].le_spec(x));
            crate::span::lemma_span_order(v@[j as int], x, x);
        }
    }
    let ghost before = v@;
    v.insert(j, x);
    proof {
        to_multiset_insert(before, j as int, x);
        let now = v@;
        assert forall|i1: int, i2: int| 0 <= i1 < i2 < now.len() implies now[i1].le_spec(
            now[i2],
        ) by {
            let a = now[i1];
            let b = now[i2];
            if i1 < j && i2 < j {
            } else if i1 < j && i2 == j {
            } else if i1 < j && i2 > j {
                assert(b == before[i2 - 1]);
            } else if i1 == j {
                if i2 > j {
                    assert(b == before[i2 - 1]);
                    assert(x.le_spec(before[j as int]));
                    crate::span::lemma_span_order(x, before[j as int], b);
                }
            } else {
                assert(a == before[i1 - 1]);
                assert(b == before[i2 - 1]);
            }
        }
        assert forall|i: int| 0 <= i < now.len() implies before.contains(#[trigger] now[i])
            || now[i] == x by {
            if i < j {
                assert(now[i] == before[i]);
            } else if i > j {
                assert(now[i] == before[i - 1]);
            }
        }
    }
}

/// Sorts the spans ascending by `(start, end)`. The result holds exactly
/// the spans given, as a multiset: nothing is deduplicated.
pub fn sort_spans(spans: &mut Vec<Span>)
    ensures
        spans_sorted(final(spans)@),
        final(spans)@.to_multiset() == old(spans)@.to_multiset(),
        final(spans)@.len() == old(spans)@.len(),
        forall|i: int|
            0 <= i < final(spans)@.len() ==> old(spans)@.contains(
                #[trigger] final(spans)@[i],
            ),
{
    broadcast use group_to_multiset_ensures;

    let mut out: Vec<Span> = Vec::new();
    let mut i: usize = 0;
    proof {
        assert(spans@.take(0) =~= Seq::<Span>::empty());
        assert(out@.to_multiset() =~= spans@.take(0).to_multiset());
    }
    while i < spans.len()
        invariant
            i <= spans@.len(),
            spans@ == old(spans)@,
            spans_sorted(out@),
            out@.to_multiset() == spans@.take(i as int).to_multiset(),
            forall|k: int| 0 <= k < out@.len() ==> spans@.contains(#[trigger] out@[k]),
        decreases spans@.len() - i,
    {
        broadcast use group_to_multiset_ensures;

        let x = spans[i];
        let ghost prefix = spans@.take(i as int);
        insert_sorted(&mut out, x);
        proof {
            assert(spans@.take(i as int + 1) =~= prefix.push(x));
            assert(prefix.push(x).to_multiset() == prefix.to_multiset().insert(x));
            assert(spans@.contains(spans@[i as int]));
        }
        i = i + 1;
    }
    proof {
        assert(spans@.take(spans@.len() as int) =~= spans@);
        to_multiset_len_eq(out@, spans@);
    }
    *spans = out;
}

proof fn to_multiset_len_eq(a: Seq<Span>, b: Seq<Span>)
    requires
        a.to_multiset() == b.to_multiset(),
    ensures
        a.len() == b.len(),
{
    broadcast use group_to_multiset_ensures;

    assert(a.to_multiset().len() == a.len());
    assert(b.to_multiset().len() == b.len());
}

/// Builds the full, sorted list of spans to extract: the file's lines in
/// file order, then the command-line values in argument order, each parsed
/// as a span, and the whole sorted ascending. The first line that fails to
/// parse is reported and nothing is returned.
pub fn collect_spans(file_lines: &Vec<Vec<u8>>, clip_args: &Vec<Vec<u8>>) -> (r: Result<
    Vec<Span>,
    BadSpan,
>)
    ensures
        match r {
            Ok(v) => {
                &&& all_spans_ok(views_of(file_lines@))
                &&& all_spans_ok(views_of(clip_args@))
                &&& spans_sorted(v@)
                &&& v@.to_multiset() == (spans_of(views_of(file_lines@)) + spans_of(
                    views_of(clip_args@),
                )).to_multiset()
                &&& forall|i: int| 0 <= i < v@.len() ==> (#[trigger] v@[i]).wf()
            },
            Err(b) => {
                let lines = if b.from_file {
                    views_of(file_lines@)
                } else {
                    views_of(clip_args@)
                };
                &&& b.index < lines.len()
                &&& !span_ok(lines[b.index as int])
                &&& b.error == span_err(lines[b.index as int])
                &&& forall|i: int| 0 <= i < b.index ==> span_ok(#[trigger] lines[i])
                &&& !b.from_file ==> all_spans_ok(views_of(file_lines@))
            },
        },
{
    let ghost fdv = views_of(file_lines@);
    let ghost adv = views_of(clip_args@);
    let mut raw: Vec<Span> = Vec::new();
    let mut i: usize = 0;
    while i < file_lines.len()
        invariant
            i <= fdv.len(),
            fdv == views_of(file_lines@),
            fdv.len() == file_lines@.len(),
            forall|k: int| 0 <= k < fdv.len() ==> #[trigger] fdv[k] == file_lines@[k]@,
            raw@.len() == i,
            forall|k: int| 0 <= k < i ==> span_ok(#[trigger] fdv[k]),
            forall|k: int| 0 <= k < i ==> #[trigger] raw@[k] == span_of(fdv[k]),
            forall|k: int| 0 <= k < i ==> (#[trigger] raw@[k]).wf(),
        decreases file_lines@.len() - i,
    {
        match Span::parse(file_lines[i].as_slice()) {
            Ok(sp) => {
                raw.push(sp);
            },
            Err(e) => {
                return Err(BadSpan { from_file: true, index: i, error: e });
            },
        }
        i = i + 1;
    }
    let mut j: usize = 0;
    while j < clip_args.len()
        invariant
            j <= adv.len(),
            fdv == views_of(file_lines@),
            adv == views_of(clip_args@),
            adv.len() == clip_args@.len(),
            forall|k: int| 0 <= k < adv.len() ==> #[trigger] adv[k] == clip_args@[k]@,
            all_spans_ok(fdv),
            raw@.len() == fdv.len() + j,
            forall|k: int| 0 <= k < fdv.len() ==> #[trigger] raw@[k] == span_of(fdv[k]),
            forall|k: int| 0 <= k < j ==> span_ok(#[trigger] adv[k]),
            forall|k: int| 0 <= k < j ==> #[trigger] raw@[fdv.len() + k] == span_of(adv[k]),
            forall|k: int| 0 <= k < raw@.len() ==> (#[trigger] raw@[k]).wf(),
        decreases clip_args@.len() - j,
    {
        match Span::parse(clip_args[j].as_slice()) {
            Ok(sp) => {
                raw.push(sp);
            },
            Err(e) => {
                return Err(BadSpan { from_file: false, index: j, error: e });
            },
        }
        j = j + 1;
    }
    proof {
        let rhs = spans_of(fdv) + spans_of(adv);
        assert(raw@.len() == rhs.len());
        assert forall|k: int| 0 <= k < raw@.len() implies raw@[k] == rhs[k] by {
            if k < fdv.len() {
                assert(raw@[k] == span_of(fdv[k]));
                assert(rhs[k] == spans_of(fdv)[k]);
            } else {
                let k2 = k - fdv.len();
                assert(raw@[fdv.len() + k2] == span_of(adv[k2]));
                assert(rhs[k] == spans_of(adv)[k2]);
            }
        }
        assert(raw@ =~= rhs);
    }
    let ghost parsed = raw@;
    sort_spans(&mut raw);
    proof {
        assert forall|i2: int| 0 <= i2 < raw@.len() implies (#[trigger] raw@[i2]).wf() by {
            assert(parsed.contains(raw@[i2]));
            let w = choose|k: int| 0 <= k < parsed.len() && parsed[k] == raw@[i2];
            assert(parsed[w].wf());
        }
    }
    Ok(raw)
}

} // verus!
