//! The interval normalizer.
//!
//! Matching produces styled spans that may overlap, duplicate each other, or
//! stick out of the requested range.  The normalizer turns them into a
//! minimal, sorted, non-overlapping covering of the requested range:
//!
//! 1. clip every span to the range and drop the empty ones;
//! 2. partition the range at every remaining span endpoint;
//! 3. give each cell the field-wise fold of the styles of the spans that
//!    contain it, in input order ("last write wins" per attribute);
//! 4. fuse neighbouring cells with identical resolved styles, but never
//!    across an offset where some input span ends (a significant boundary —
//!    a real token boundary that must stay visible).
use vstd::prelude::*;

use crate::span::StyleSpan;
use crate::style::{spec_merge, spec_unset, Style};

verus! {

/// Does span `s` contain the byte at offset `p`?
pub open spec fn covers(s: StyleSpan, p: int) -> bool {
    s.start <= p && p < s.end
}

/// Does span `s` contain the whole interval `[a, b)`?
pub open spec fn contains_interval(s: StyleSpan, a: int, b: int) -> bool {
    s.start <= a && b <= s.end
}

/// The style of the byte at offset `p`: the fold, in input order, of the
/// styles of all spans that contain `p`, starting from the fully-unset style.
pub open spec fn resolved_at(spans: Seq<StyleSpan>, p: int) -> Style
    decreases spans.len(),
{
    if spans.len() == 0 {
        spec_unset()
    } else if covers(spans.last(), p) {
        spec_merge(resolved_at(spans.drop_last(), p), spans.last().style)
    } else {
        resolved_at(spans.drop_last(), p)
    }
}

/// The fold, in input order, of the styles of all spans that contain the
/// whole interval `[a, b)`.
pub open spec fn resolved_over(spans: Seq<StyleSpan>, a: int, b: int) -> Style
    decreases spans.len(),
{
    if spans.len() == 0 {
        spec_unset()
    } else if contains_interval(spans.last(), a, b) {
        spec_merge(resolved_over(spans.drop_last(), a, b), spans.last().style)
    } else {
        resolved_over(spans.drop_last(), a, b)
    }
}

/// `s` restricted to `[lo, hi]`.
pub open spec fn spec_clip(lo: usize, hi: usize, s: StyleSpan) -> StyleSpan {
    StyleSpan {
        start: if s.start < lo {
            lo
        } else {
            s.start
        },
        end: if s.end > hi {
            hi
        } else {
            s.end
        },
        style: s.style,
    }
}

/// Every span clipped to `[lo, hi]`, with the spans that become empty
/// dropped; order is kept.
pub open spec fn clipped(lo: usize, hi: usize, spans: Seq<StyleSpan>) -> Seq<StyleSpan>
    decreases spans.len(),
{
    if spans.len() == 0 {
        Seq::empty()
    } else {
        let rest = clipped(lo, hi, spans.drop_last());
        let c = spec_clip(lo, hi, spans.last());
        if c.start < c.end {
            rest.push(c)
        } else {
            rest
        }
    }
}

/// Is `p` the start or the end of some span?
pub open spec fn endpoint_in(cl: Seq<StyleSpan>, p: int) -> bool {
    exists|i: int| 0 <= i < cl.len() && ((#[trigger] cl[i]).start == p || cl[i].end == p)
}

/// Is `p` the end of some span?  Such offsets are significant: they are real
/// token boundaries and are never fused away.
pub open spec fn is_significant(cl: Seq<StyleSpan>, p: int) -> bool {
    exists|i: int| 0 <= i < cl.len() && (#[trigger] cl[i]).end == p
}

/// The cells of `out` are non-empty, consecutive, and cover `[lo, hi)`
/// exactly.
pub open spec fn is_partition(out: Seq<StyleSpan>, lo: usize, hi: usize) -> bool {
    &&& (lo == hi ==> out.len() == 0)
    &&& (lo < hi ==> out.len() > 0 && out[0].start == lo && out.last().end == hi)
    &&& (forall|i: int| 0 <= i < out.len() ==> (#[trigger] out[i]).start < out[i].end)
    &&& (forall|i: int|
        0 <= i < out.len() - 1 ==> (#[trigger] out[i]).end == out[i + 1].start)
}

/// Every cell of `out` carries, at each of its offsets, the resolved style
/// of that offset.
pub open spec fn pointwise_resolved(out: Seq<StyleSpan>, cl: Seq<StyleSpan>) -> bool {
    forall|i: int, p: int|
        #![trigger out[i], resolved_at(cl, p)]
        0 <= i < out.len() && out[i].start <= p < out[i].end ==> out[i].style == resolved_at(
            cl,
            p,
        )
}

/// The resolved style changes at `p`, or `p` is significant: a boundary at
/// `p` must stay visible.
pub open spec fn break_needed(cl: Seq<StyleSpan>, p: int) -> bool {
    resolved_at(cl, p - 1) != resolved_at(cl, p) || is_significant(cl, p)
}

/// Every interior cell boundary of `out` is a span endpoint that had to stay.
pub open spec fn breaks_sound(out: Seq<StyleSpan>, cl: Seq<StyleSpan>) -> bool {
    forall|i: int|
        1 <= i < out.len() ==> endpoint_in(cl, (#[trigger] out[i]).start as int) && break_needed(
            cl,
            out[i].start as int,
        )
}

/// Every span endpoint inside the range that had to stay is an interior cell
/// boundary of `out`.
pub open spec fn breaks_complete(
    out: Seq<StyleSpan>,
    lo: usize,
    hi: usize,
    cl: Seq<StyleSpan>,
) -> bool {
    forall|p: int|
        lo < p < hi && #[trigger] endpoint_in(cl, p) && break_needed(cl, p) ==> exists|i: int|
            1 <= i < out.len() && (#[trigger] out[i]).start == p
}

/// The full normalization relation: `out` is the normalization of `spans`
/// over `[lo, hi)`.  These four clauses determine `out` uniquely (see
/// `lemma_normalized_unique`).
pub open spec fn norm_rel(lo: usize, hi: usize, spans: Seq<StyleSpan>, out: Seq<StyleSpan>) -> bool {
    let cl = clipped(lo, hi, spans);
    &&& is_partition(out, lo, hi)
    &&& pointwise_resolved(out, cl)
    &&& breaks_sound(out, cl)
    &&& breaks_complete(out, lo, hi, cl)
}

/// All clipped spans are non-empty and lie inside `[lo, hi]`.
pub proof fn lemma_clipped_bounds(lo: usize, hi: usize, spans: Seq<StyleSpan>)
    requires
        lo <= hi,
    ensures
        forall|i: int|
            0 <= i < clipped(lo, hi, spans).len() ==> lo <= (#[trigger] clipped(
                lo,
                hi,
                spans,
            )[i]).start && clipped(lo, hi, spans)[i].start < clipped(lo, hi, spans)[i].end
                && clipped(lo, hi, spans)[i].end <= hi,
    decreases spans.len(),
{
    if spans.len() > 0 {
        lemma_clipped_bounds(lo, hi, spans.drop_last());
    }
}

/// Strictly increasing sequence of offsets.
pub open spec fn sorted_distinct(s: Seq<usize>) -> bool {
    forall|i: int, j: int| 0 <= i < j < s.len() ==> s[i] < s[j]
}

/// Clip every span to `[lo, hi]` and drop the spans that become empty.
fn clip_spans(lo: usize, hi: usize, spans: &Vec<StyleSpan>) -> (cl: Vec<StyleSpan>)
    requires
        lo <= hi,
    ensures
        cl@ == clipped(lo, hi, spans@),
{
    let mut cl: Vec<StyleSpan> = Vec::new();
    let mut i: usize = 0;
    while i < spans.len()
        invariant
            lo <= hi,
            i <= spans.len(),
            cl@ == clipped(lo, hi, spans@.take(i as int)),
        decreases spans.len() - i,
    {
        let s = spans[i];
        let cs = if s.start < lo {
            lo
        } else {
            s.start
        };
        let ce = if s.end > hi {
            hi
        } else {
            s.end
        };
        proof {
            assert(spans@.take(i + 1).drop_last() =~= spans@.take(i as int));
            assert(spans@.take(i + 1).last() == spans@[i as int]);
        }
        if cs < ce {
            cl.push(StyleSpan { start: cs, end: ce, style: s.style });
        }
        i = i + 1;
    }
    proof {
        assert(spans@.take(spans@.len() as int) =~= spans@);
    }
    cl
}

/// Insert `x` into the strictly increasing sequence `v`, keeping it strictly
/// increasing; a duplicate is dropped.
fn insert_sorted(v: &mut Vec<usize>, x: usize)
    requires
        sorted_distinct(old(v)@),
    ensures
        sorted_distinct(final(v)@),
        forall|q: usize| final(v)@.contains(q) <==> (old(v)@.contains(q) || q == x),
{
    let ghost orig = v@;
    let mut i: usize = 0;
    while i < v.len() && v[i] < x
        invariant
            v@ == orig,
            sorted_distinct(v@),
            i <= v.len(),
            forall|j: int| 0 <= j < i ==> v@[j] < x,
        decreases v.len() - i,
    {
        i = i + 1;
    }
    if i < v.len() && v[i] == x {
        proof {
            assert(v@.contains(x));
        }
        return ;
    }
    proof {
        assert(forall|j: int| i <= j < orig.len() ==> orig[j] > x) by {
            assert forall|j: int| i <= j < orig.len() implies orig[j] > x by {
                if i < orig.len() {
                    assert(orig[i as int] > x);
                    if j > i {
                        assert(orig[i as int] < orig[j]);
                    }
                }
            }
        }
    }
    v.insert(i, x);
    proof {
        let now = v@;
        assert(now == orig.insert(i as int, x));
        assert forall|j1: int, j2: int| 0 <= j1 < j2 < now.len() implies now[j1] < now[j2] by {
            if j2 < i {
            } else if j1 > i {
            } else {
            }
        }
        assert forall|q: usize| now.contains(q) implies (orig.contains(q) || q == x) by {
            let j = choose|j: int| 0 <= j < now.len() && now[j] == q;
            if j < i {
                assert(orig[j] == q);
            } else if j > i {
                assert(orig[j - 1] == q);
            }
        }
        assert forall|q: usize| (orig.contains(q) || q == x) implies now.contains(q) by {
            if orig.contains(q) {
                let j = choose|j: int| 0 <= j < orig.len() && orig[j] == q;
                if j < i {
                    assert(now[j] == q);
                } else {
                    assert(now[j + 1] == q);
                }
            } else {
                assert(now[i as int] == q);
            }
        }
    }
}

/// The sorted, duplicate-free list of cell boundaries: the endpoints of the
/// requested range and of every clipped span.
fn collect_boundaries(lo: usize, hi: usize, cl: &Vec<StyleSpan>) -> (b: Vec<usize>)
    requires
        lo <= hi,
    ensures
        sorted_distinct(b@),
        b@.contains(lo),
        b@.contains(hi),
        forall|i: int|
            0 <= i < cl@.len() ==> b@.contains((#[trigger] cl@[i]).start) && b@.contains(
                cl@[i].end,
            ),
        forall|q: usize|
            b@.contains(q) ==> (q == lo || q == hi || endpoint_in(cl@, q as int)),
{
    let mut b: Vec<usize> = Vec::new();
    b.push(lo);
    proof {
        assert(b@[0] == lo);
        assert(b@.contains(lo));
    }
    insert_sorted(&mut b, hi);
    let mut i: usize = 0;
    while i < cl.len()
        invariant
            sorted_distinct(b@),
            i <= cl.len(),
            b@.contains(lo),
            b@.contains(hi),
            forall|j: int|
                0 <= j < i ==> b@.contains((#[trigger] cl@[j]).start) && b@.contains(cl@[j].end),
            forall|q: usize|
                b@.contains(q) ==> (q == lo || q == hi || endpoint_in(cl@, q as int)),
        decreases cl.len() - i,
    {
        let s = cl[i].start;
        let e = cl[i].end;
        insert_sorted(&mut b, s);
        proof {
            assert(endpoint_in(cl@, s as int)) by {
                assert((cl@[i as int]).start == s);
            }
        }
        insert_sorted(&mut b, e);
        proof {
            assert(endpoint_in(cl@, e as int)) by {
                assert((cl@[i as int]).start == cl@[i as int].start && cl@[i as int].end == e);
            }
        }
        i = i + 1;
    }
    b
}

/// A value of a strictly increasing sequence never falls strictly between
/// two consecutive elements.
proof fn lemma_no_boundary_between(b: Seq<usize>, k: int, v: usize)
    requires
        sorted_distinct(b),
        0 <= k < b.len() - 1,
        b.contains(v),
    ensures
        !(b[k] < v && v < b[k + 1]),
{
    let j = choose|j: int| 0 <= j < b.len() && b[j] == v;
    if j <= k {
        if j < k {
            assert(b[j] < b[k]);
        }
    } else {
        if j > k + 1 {
            assert(b[k + 1] < b[j]);
        }
    }
}

/// Two offsets contained in the same spans resolve to the same style.
proof fn lemma_resolved_same(cl: Seq<StyleSpan>, p: int, q: int)
    requires
        forall|i: int| 0 <= i < cl.len() ==> (covers(#[trigger] cl[i], p) <==> covers(cl[i], q)),
    ensures
        resolved_at(cl, p) == resolved_at(cl, q),
    decreases cl.len(),
{
    if cl.len() > 0 {
        assert(forall|i: int|
            0 <= i < cl.drop_last().len() ==> (covers(#[trigger] cl.drop_last()[i], p) <==> covers(
                cl.drop_last()[i],
                q,
            )));
        lemma_resolved_same(cl.drop_last(), p, q);
        assert(covers(cl.last(), p) <==> covers(cl.last(), q)) by {
            assert(cl[cl.len() - 1] == cl.last());
        }
    }
}

/// When containing the cell `[a, b)` is the same as covering `a`, the fold
/// over the cell equals the resolved style at `a`.
proof fn lemma_over_eq_at(cl: Seq<StyleSpan>, a: int, b: int)
    requires
        forall|i: int|
            0 <= i < cl.len() ==> (contains_interval(#[trigger] cl[i], a, b) <==> covers(
                cl[i],
                a,
            )),
    ensures
        resolved_over(cl, a, b) == resolved_at(cl, a),
    decreases cl.len(),
{
    if cl.len() > 0 {
        assert(forall|i: int|
            0 <= i < cl.drop_last().len() ==> (contains_interval(
                #[trigger] cl.drop_last()[i],
                a,
                b,
            ) <==> covers(cl.drop_last()[i], a)));
        lemma_over_eq_at(cl.drop_last(), a, b);
        assert(contains_interval(cl.last(), a, b) <==> covers(cl.last(), a)) by {
            assert(cl[cl.len() - 1] == cl.last());
        }
    }
}

/// Inside one cell every offset is covered by exactly the spans that cover
/// the cell's start, so the cell fold gives the resolved style of every
/// offset of the cell.
proof fn lemma_cell_styles(cl: Seq<StyleSpan>, b: Seq<usize>, k: int)
    requires
        sorted_distinct(b),
        0 <= k < b.len() - 1,
        forall|i: int|
            0 <= i < cl.len() ==> b.contains((#[trigger] cl[i]).start) && b.contains(cl[i].end),
    ensures
        forall|p: int|
            b[k] <= p < b[k + 1] ==> resolved_over(cl, b[k] as int, b[k + 1] as int)
                == #[trigger] resolved_at(cl, p),
{
    let a = b[k] as int;
    let z = b[k + 1] as int;
    assert forall|p: int| a <= p < z implies resolved_over(cl, a, z) == #[trigger] resolved_at(
        cl,
        p,
    ) by {
        assert forall|i: int| 0 <= i < cl.len() implies (covers(#[trigger] cl[i], p) <==> covers(
            cl[i],
            a,
        )) by {
            lemma_no_boundary_between(b, k, cl[i].start);
            lemma_no_boundary_between(b, k, cl[i].end);
        }
        lemma_resolved_same(cl, p, a);
        assert forall|i: int| 0 <= i < cl.len() implies (contains_interval(
            #[trigger] cl[i],
            a,
            z,
        ) <==> covers(cl[i], a)) by {
            lemma_no_boundary_between(b, k, cl[i].start);
            lemma_no_boundary_between(b, k, cl[i].end);
        }
        lemma_over_eq_at(cl, a, z);
    }
}

/// Fold the styles of all spans that contain the whole cell `[a, b)`, in
/// input order.
fn resolve_cell(cl: &Vec<StyleSpan>, a: usize, b: usize) -> (st: Style)
    ensures
        st == resolved_over(cl@, a as int, b as int),
{
    let mut st = Style::unset();
    let mut j: usize = 0;
    while j < cl.len()
        invariant
            j <= cl.len(),
            st == resolved_over(cl@.take(j as int), a as int, b as int),
        decreases cl.len() - j,
    {
        let c = cl[j];
        proof {
            assert(cl@.take(j + 1).drop_last() =~= cl@.take(j as int));
            assert(cl@.take(j + 1).last() == cl@[j as int]);
        }
        if c.start <= a && b <= c.end {
            st.merge_from(&c.style);
        }
        j = j + 1;
    }
    proof {
        assert(cl@.take(cl@.len() as int) =~= cl@);
    }
    st
}

/// Build one styled cell per pair of consecutive boundaries.
fn build_cells(cl: &Vec<StyleSpan>, b: &Vec<usize>) -> (cells: Vec<StyleSpan>)
    requires
        sorted_distinct(b@),
        b@.len() >= 1,
        forall|i: int|
            0 <= i < cl@.len() ==> b@.contains((#[trigger] cl@[i]).start) && b@.contains(
                cl@[i].end,
            ),
    ensures
        cells@.len() == b@.len() - 1,
        forall|k: int|
            0 <= k < cells@.len() ==> (#[trigger] cells@[k]).start == b@[k] && cells@[k].end
                == b@[k + 1],
        pointwise_resolved(cells@, cl@),
{
    let mut cells: Vec<StyleSpan> = Vec::new();
    let mut k: usize = 0;
    let n = b.len();
    while k + 1 < n
        invariant
            sorted_distinct(b@),
            b@.len() >= 1,
            forall|i: int|
                0 <= i < cl@.len() ==> b@.contains((#[trigger] cl@[i]).start) && b@.contains(
                    cl@[i].end,
                ),
            n == b@.len(),
            k <= b@.len() - 1,
            cells@.len() == k,
            forall|j: int|
                0 <= j < cells@.len() ==> (#[trigger] cells@[j]).start == b@[j] && cells@[j].end
                    == b@[j + 1],
            pointwise_resolved(cells@, cl@),
        decreases n - k,
    {
        let a = b[k];
        let z = b[k + 1];
        let st = resolve_cell(cl, a, z);
        proof {
            lemma_cell_styles(cl@, b@, k as int);
        }
        cells.push(StyleSpan { start: a, end: z, style: st });
        proof {
            let now = cells@;
            assert forall|j: int, p: int|
                #![trigger now[j], resolved_at(cl@, p)]
                0 <= j < now.len() && now[j].start <= p < now[j].end implies now[j].style
                == resolved_at(cl@, p) by {
                if j < now.len() - 1 {
                    assert(now[j] == now.drop_last()[j]);
                } else {
                    assert(now[j].style == resolved_over(cl@, a as int, z as int));
                }
            }
        }
        k = k + 1;
    }
    cells
}

/// In a contiguous run of non-empty spans, earlier spans end no later than
/// later spans start.
proof fn lemma_chain(s: Seq<StyleSpan>, i: int, j: int)
    requires
        forall|m: int| 0 <= m < s.len() ==> (#[trigger] s[m]).start < s[m].end,
        forall|m: int| 0 <= m < s.len() - 1 ==> (#[trigger] s[m]).end == s[m + 1].start,
        0 <= i < j < s.len(),
    ensures
        s[i].end <= s[j].start,
    decreases j - i,
{
    if i + 1 < j {
        lemma_chain(s, i, j - 1);
    }
}

/// No span endpoint lies strictly inside one cell: endpoints inside the
/// range are cell starts, and cells do not overlap.
proof fn lemma_cell_inner_clear(
    cl: Seq<StyleSpan>,
    cells: Seq<StyleSpan>,
    lo: usize,
    hi: usize,
    k: int,
)
    requires
        lo <= hi,
        is_partition(cells, lo, hi),
        forall|p: int|
            lo < p < hi && #[trigger] endpoint_in(cl, p) ==> exists|m: int|
                1 <= m < cells.len() && (#[trigger] cells[m]).start == p,
        0 <= k < cells.len(),
    ensures
        forall|p: int|
            (cells[k].start as int) < p < cells[k].end as int ==> !endpoint_in(cl, p),
{
    assert forall|p: int|
        (cells[k].start as int) < p < cells[k].end as int implies !endpoint_in(cl, p) by {
        if endpoint_in(cl, p) {
            assert(lo <= cells[0].start);
            if 0 < k {
                lemma_chain(cells, 0, k);
            }
            if k < cells.len() - 1 {
                lemma_chain(cells, k, cells.len() - 1);
            }
            assert(lo < p && p < hi);
            let m = choose|m: int| 1 <= m < cells.len() && (#[trigger] cells[m]).start == p;
            if m < k {
                lemma_chain(cells, m, k);
            } else if m > k {
                lemma_chain(cells, k, m);
            }
        }
    }
}

/// The loop invariant of the merge pass, over the merged spans produced so
/// far together with the pending span: styles are pointwise correct, the
/// interior boundaries are exactly the kept ones.
#[verifier::opaque]
spec fn merge_inv(acc: Seq<StyleSpan>, cl: Seq<StyleSpan>, lo: usize) -> bool {
    &&& acc.len() >= 1
    &&& pointwise_resolved(acc, cl)
    &&& breaks_sound(acc, cl)
    &&& (forall|p: int|
        lo < p < acc.last().end as int && #[trigger] endpoint_in(cl, p) && break_needed(cl, p)
            ==> exists|i: int| 1 <= i < acc.len() && (#[trigger] acc[i]).start == p)
}

/// The merge pass starts in its invariant: a single pending cell, the first.
proof fn lemma_merge_init(cl: Seq<StyleSpan>, cells: Seq<StyleSpan>, lo: usize, hi: usize)
    requires
        lo < hi,
        is_partition(cells, lo, hi),
        pointwise_resolved(cells, cl),
        forall|p: int|
            lo < p < hi && #[trigger] endpoint_in(cl, p) ==> exists|m: int|
                1 <= m < cells.len() && (#[trigger] cells[m]).start == p,
    ensures
        merge_inv(Seq::empty().push(cells[0]), cl, lo),
{
    reveal(merge_inv);
    let acc = Seq::empty().push(cells[0]);
    assert(acc.last() == cells[0]);
    assert forall|i: int, p: int|
        #![trigger acc[i], resolved_at(cl, p)]
        0 <= i < acc.len() && acc[i].start <= p < acc[i].end implies acc[i].style == resolved_at(
        cl,
        p,
    ) by {
        assert(acc[i] == cells[0]);
        assert(cells[0].style == resolved_at(cl, p));
    }
    lemma_cell_inner_clear(cl, cells, lo, hi, 0);
    assert forall|p: int|
        lo < p < acc.last().end as int && #[trigger] endpoint_in(cl, p) && break_needed(cl, p)
        implies exists|i: int| 1 <= i < acc.len() && (#[trigger] acc[i]).start == p by {
        assert(cells[0].start == lo);
        assert((cells[0].start as int) < p < cells[0].end as int);
        assert(!endpoint_in(cl, p));
    }
}

/// Extending the pending cell across a fused boundary keeps the merge
/// invariant.
proof fn lemma_fuse_step(
    cl: Seq<StyleSpan>,
    cells: Seq<StyleSpan>,
    prev: Seq<StyleSpan>,
    fused: Seq<StyleSpan>,
    lo: usize,
    hi: usize,
    k: int,
)
    requires
        lo <= hi,
        is_partition(cells, lo, hi),
        pointwise_resolved(cells, cl),
        forall|p: int|
            lo < p < hi && #[trigger] endpoint_in(cl, p) ==> exists|m: int|
                1 <= m < cells.len() && (#[trigger] cells[m]).start == p,
        1 <= k < cells.len(),
        prev.len() >= 1,
        fused.len() == prev.len(),
        forall|i: int| 0 <= i < prev.len() - 1 ==> #[trigger] fused[i] == prev[i],
        fused.last().start == prev.last().start,
        fused.last().end == cells[k].end,
        fused.last().style == prev.last().style,
        prev.last().start < prev.last().end,
        prev.last().end == cells[k].start,
        prev.last().style == cells[k].style,
        !is_significant(cl, cells[k].start as int),
        merge_inv(prev, cl, lo),
    ensures
        merge_inv(fused, cl, lo),
{
    reveal(merge_inv);
    let cstart = cells[k].start as int;
    let cend = cells[k].end as int;
    lemma_cell_inner_clear(cl, cells, lo, hi, k);
    assert(cells[k].start < cells[k].end);
    assert(cells[k].style == resolved_at(cl, cstart)) by {
        assert(cells[k].start <= cstart < cells[k].end);
    }
    assert(prev.last().style == resolved_at(cl, cstart - 1)) by {
        assert(prev[prev.len() - 1].start <= cstart - 1 < prev[prev.len() - 1].end);
    }
    assert forall|i: int, p: int|
        #![trigger fused[i], resolved_at(cl, p)]
        0 <= i < fused.len() && fused[i].start <= p < fused[i].end implies fused[i].style
        == resolved_at(cl, p) by {
        if i == fused.len() - 1 {
            if p < prev.last().end {
                assert(prev[i].start <= p < prev[i].end);
                assert(prev[i].style == resolved_at(cl, p));
            } else {
                assert(cells[k].start <= p < cells[k].end);
                assert(cells[k].style == resolved_at(cl, p));
            }
        } else {
            assert(fused[i] == prev[i]);
            assert(prev[i].style == resolved_at(cl, p));
        }
    }
    assert forall|i: int|
        1 <= i < fused.len() implies endpoint_in(cl, (#[trigger] fused[i]).start as int)
        && break_needed(cl, fused[i].start as int) by {
        if i < fused.len() - 1 {
            assert(fused[i] == prev[i]);
        } else {
            assert(fused[i].start == prev[i].start);
        }
        assert(endpoint_in(cl, prev[i].start as int) && break_needed(cl, prev[i].start as int));
    }
    assert(!break_needed(cl, cstart)) by {
        assert(resolved_at(cl, cstart - 1) == prev.last().style);
        assert(resolved_at(cl, cstart) == cells[k].style);
    }
    assert forall|p: int|
        lo < p < fused.last().end as int && #[trigger] endpoint_in(cl, p) && break_needed(cl, p)
        implies exists|i: int| 1 <= i < fused.len() && (#[trigger] fused[i]).start == p by {
        if p < prev.last().end as int {
            let i = choose|i: int| 1 <= i < prev.len() && (#[trigger] prev[i]).start == p;
            if i < prev.len() - 1 {
                assert(fused[i] == prev[i]);
            }
            assert(fused[i].start == p);
        } else if p == cstart {
            assert(false);
        } else {
            assert(cstart < p < cend);
            assert(!endpoint_in(cl, p));
        }
    }
}

/// Starting a fresh pending cell at a kept boundary keeps the merge
/// invariant.
proof fn lemma_push_step(
    cl: Seq<StyleSpan>,
    cells: Seq<StyleSpan>,
    prev: Seq<StyleSpan>,
    pushed: Seq<StyleSpan>,
    lo: usize,
    hi: usize,
    k: int,
)
    requires
        lo <= hi,
        is_partition(cells, lo, hi),
        pointwise_resolved(cells, cl),
        forall|p: int|
            lo < p < hi && #[trigger] endpoint_in(cl, p) ==> exists|m: int|
                1 <= m < cells.len() && (#[trigger] cells[m]).start == p,
        forall|m: int|
            1 <= m < cells.len() ==> endpoint_in(cl, (#[trigger] cells[m]).start as int),
        1 <= k < cells.len(),
        prev.len() >= 1,
        pushed == prev.push(cells[k]),
        prev.last().start < prev.last().end,
        prev.last().end == cells[k].start,
        prev.last().style != cells[k].style || is_significant(cl, cells[k].start as int),
        merge_inv(prev, cl, lo),
    ensures
        merge_inv(pushed, cl, lo),
{
    reveal(merge_inv);
    let cstart = cells[k].start as int;
    let cend = cells[k].end as int;
    lemma_cell_inner_clear(cl, cells, lo, hi, k);
    assert(cells[k].start < cells[k].end);
    assert(cells[k].style == resolved_at(cl, cstart)) by {
        assert(cells[k].start <= cstart < cells[k].end);
    }
    assert(prev.last().style == resolved_at(cl, cstart - 1)) by {
        assert(prev[prev.len() - 1].start <= cstart - 1 < prev[prev.len() - 1].end);
    }
    assert forall|i: int, p: int|
        #![trigger pushed[i], resolved_at(cl, p)]
        0 <= i < pushed.len() && pushed[i].start <= p < pushed[i].end implies pushed[i].style
        == resolved_at(cl, p) by {
        if i == pushed.len() - 1 {
            assert(pushed[i] == cells[k]);
            assert(cells[k].start <= p < cells[k].end);
            assert(cells[k].style == resolved_at(cl, p));
        } else {
            assert(pushed[i] == prev[i]);
            assert(prev[i].style == resolved_at(cl, p));
        }
    }
    assert(break_needed(cl, cstart)) by {
        if !is_significant(cl, cstart) {
            assert(resolved_at(cl, cstart - 1) == prev.last().style);
            assert(resolved_at(cl, cstart) == cells[k].style);
        }
    }
    assert forall|i: int|
        1 <= i < pushed.len() implies endpoint_in(cl, (#[trigger] pushed[i]).start as int)
        && break_needed(cl, pushed[i].start as int) by {
        if i < pushed.len() - 1 {
            assert(pushed[i] == prev[i]);
            assert(endpoint_in(cl, prev[i].start as int) && break_needed(
                cl,
                prev[i].start as int,
            ));
        } else {
            assert(pushed[i] == cells[k]);
        }
    }
    assert forall|p: int|
        lo < p < pushed.last().end as int && #[trigger] endpoint_in(cl, p) && break_needed(cl, p)
        implies exists|i: int| 1 <= i < pushed.len() && (#[trigger] pushed[i]).start == p by {
        if p < cstart {
            let i = choose|i: int| 1 <= i < prev.len() && (#[trigger] prev[i]).start == p;
            assert(pushed[i] == prev[i]);
            assert(pushed[i].start == p);
        } else if p == cstart {
            assert(pushed[pushed.len() - 1].start == p);
        } else {
            assert(cstart < p < cend);
            assert(!endpoint_in(cl, p));
        }
    }
}

/// Fuse neighbouring cells with identical resolved styles, but never across
/// a significant boundary.
#[verifier::rlimit(50)]
fn merge_cells(lo: usize, hi: usize, cl: &Vec<StyleSpan>, cells: &Vec<StyleSpan>) -> (out: Vec<
    StyleSpan,
>)
    requires
        lo <= hi,
        is_partition(cells@, lo, hi),
        pointwise_resolved(cells@, cl@),
        forall|k: int|
            1 <= k < cells@.len() ==> endpoint_in(cl@, (#[trigger] cells@[k]).start as int),
        forall|p: int|
            lo < p < hi && #[trigger] endpoint_in(cl@, p) ==> exists|k: int|
                1 <= k < cells@.len() && (#[trigger] cells@[k]).start == p,
    ensures
        is_partition(out@, lo, hi),
        pointwise_resolved(out@, cl@),
        breaks_sound(out@, cl@),
        breaks_complete(out@, lo, hi, cl@),
{
    let mut out: Vec<StyleSpan> = Vec::new();
    if cells.len() == 0 {
        return out;
    }
    let n = cells.len();
    let mut cur = cells[0];
    let mut k: usize = 1;
    proof {
        lemma_merge_init(cl@, cells@, lo, hi);
        assert(out@.push(cur) =~= Seq::empty().push(cells@[0]));
    }
    while k < n
        invariant
            lo <= hi,
            n == cells@.len(),
            1 <= k <= n,
            is_partition(cells@, lo, hi),
            pointwise_resolved(cells@, cl@),
            forall|m: int|
                1 <= m < cells@.len() ==> endpoint_in(cl@, (#[trigger] cells@[m]).start as int),
            forall|p: int|
                lo < p < hi && #[trigger] endpoint_in(cl@, p) ==> exists|m: int|
                    1 <= m < cells@.len() && (#[trigger] cells@[m]).start == p,
            cur.start < cur.end,
            cur.end == cells@[k - 1].end,
            out@.len() == 0 ==> cur.start == lo,
            out@.len() > 0 ==> out@[0].start == lo && cur.start == out@.last().end,
            forall|i: int| 0 <= i < out@.len() ==> (#[trigger] out@[i]).start < out@[i].end,
            forall|i: int| 0 <= i < out@.len() - 1 ==> (#[trigger] out@[i]).end == out@[i + 1].start,
            merge_inv(out@.push(cur), cl@, lo),
        decreases n - k,
    {
        let ghost prev_seq = out@.push(cur);
        let c = cells[k];
        proof {
            assert(cells@[k - 1].end == cells@[k as int].start);
            assert(prev_seq.last() == cur);
        }
        let same = cur.style.same(&c.style);
        let sig = ends_at(cl, c.start);
        if same && !sig {
            cur.end = c.end;
            proof {
                let now_seq = out@.push(cur);
                assert(forall|i: int|
                    0 <= i < prev_seq.len() - 1 ==> #[trigger] now_seq[i] == prev_seq[i]);
                lemma_fuse_step(cl@, cells@, prev_seq, now_seq, lo, hi, k as int);
            }
        } else {
            out.push(cur);
            cur = c;
            proof {
                let now_seq = out@.push(cur);
                assert(now_seq =~= prev_seq.push(c));
                lemma_push_step(cl@, cells@, prev_seq, now_seq, lo, hi, k as int);
                assert(out@.last() == prev_seq.last());
            }
        }
        k = k + 1;
    }
    proof {
        assert(cells@[k - 1].end == cells@[cells@.len() - 1].end);
        assert(cells@.last().end == hi);
    }
    out.push(cur);
    proof {
        reveal(merge_inv);
        assert(out@.last() == cur);
        assert(out@[0].start == lo);
    }
    out
}

/// Is `p` the end of some span of `cl`?
fn ends_at(cl: &Vec<StyleSpan>, p: usize) -> (r: bool)
    ensures
        r == is_significant(cl@, p as int),
{
    let mut i: usize = 0;
    while i < cl.len()
        invariant
            i <= cl.len(),
            forall|j: int| 0 <= j < i ==> (#[trigger] cl@[j]).end != p,
        decreases cl.len() - i,
    {
        if cl[i].end == p {
            proof {
                assert((cl@[i as int]).end == p as int);
            }
            return true;
        }
        i = i + 1;
    }
    false
}

/// Collapse overlapping styled spans into a minimal, sorted,
/// non-overlapping, style-resolved covering of `[total_start, total_end)`.
///
/// The output satisfies the normalization relation: it partitions the range
/// exactly; each output span carries, at each of its offsets, the field-wise
/// fold of the styles of the input spans containing that offset; and its
/// interior boundaries are exactly the input-span endpoints at which either
/// the resolved style changes or some input span ends.
#[verifier::rlimit(50)]
pub fn unique_styles(total_start: usize, total_end: usize, styles: &Vec<StyleSpan>) -> (out: Vec<
    StyleSpan,
>)
    requires
        total_start <= total_end,
    ensures
        norm_rel(total_start, total_end, styles@, out@),
{
    let lo = total_start;
    let hi = total_end;
    let cl = clip_spans(lo, hi, styles);
    proof {
        lemma_clipped_bounds(lo, hi, styles@);
    }
    let b = collect_boundaries(lo, hi, &cl);
    proof {
        // every element of `b` lies in [lo, hi]
        assert forall|j: int| 0 <= j < b@.len() implies lo <= b@[j] && b@[j] <= hi by {
            assert(b@.contains(b@[j]));
            if b@[j] != lo && b@[j] != hi {
                assert(endpoint_in(cl@, b@[j] as int));
                let i = choose|i: int|
                    0 <= i < cl@.len() && ((#[trigger] cl@[i]).start == b@[j] as int || cl@[i].end
                        == b@[j] as int);
            }
        }
        // the first element is lo, the last is hi
        let j0 = choose|j: int| 0 <= j < b@.len() && b@[j] == lo;
        assert(b@[j0] == lo);
        if j0 > 0 {
            assert(b@[0] < b@[j0]);
        }
        assert(b@[0] == lo);
        let j1 = choose|j: int| 0 <= j < b@.len() && b@[j] == hi;
        if j1 < b@.len() - 1 {
            assert(b@[j1] < b@[b@.len() - 1]);
        }
        assert(b@[b@.len() - 1] == hi);
        if lo == hi {
            // the clipped list is empty, so b is the single offset lo
            assert(cl@.len() == 0) by {
                if cl@.len() > 0 {
                    assert(lo <= cl@[0].start && cl@[0].start < cl@[0].end && cl@[0].end <= hi);
                }
            }
            assert(b@.len() == 1) by {
                if b@.len() > 1 {
                    assert(b@[0] < b@[1]);
                    assert(b@.contains(b@[1]));
                    assert(b@[1] != lo && b@[1] != hi);
                    assert(endpoint_in(cl@, b@[1] as int));
                }
            }
        } else {
            assert(b@.len() >= 2) by {
                if j0 == j1 {
                    assert(lo == hi);
                }
            }
        }
    }
    let cells = build_cells(&cl, &b);
    proof {
        // the cells partition [lo, hi)
        assert(is_partition(cells@, lo, hi)) by {
            if lo < hi {
                assert(cells@.len() == b@.len() - 1 >= 1);
                assert(cells@[0].start == b@[0]);
                assert(cells@[cells@.len() - 1].end == b@[b@.len() - 1]);
            }
            assert forall|i: int| 0 <= i < cells@.len() implies (#[trigger] cells@[i]).start
                < cells@[i].end by {
                assert(b@[i] < b@[i + 1]);
            }
            assert forall|i: int| 0 <= i < cells@.len() - 1 implies (#[trigger] cells@[i]).end
                == cells@[i + 1].start by {}
        }
        // interior cell starts are span endpoints
        assert forall|m: int| 1 <= m < cells@.len() implies endpoint_in(
            cl@,
            (#[trigger] cells@[m]).start as int,
        ) by {
            assert(cells@[m].start == b@[m]);
            assert(b@.contains(b@[m]));
            assert(b@[0] < b@[m] && b@[m] < b@[b@.len() - 1]);
            assert(b@[m] != lo && b@[m] != hi);
        }
        // every span endpoint inside the range is an interior cell start
        assert forall|p: int|
            lo < p < hi && #[trigger] endpoint_in(cl@, p) implies exists|m: int|
            1 <= m < cells@.len() && (#[trigger] cells@[m]).start == p by {
            let i = choose|i: int|
                0 <= i < cl@.len() && ((#[trigger] cl@[i]).start == p || cl@[i].end == p);
            let q: usize = if cl@[i].start == p {
                cl@[i].start
            } else {
                cl@[i].end
            };
            assert(q as int == p);
            assert(b@.contains(q));
            let j = choose|j: int| 0 <= j < b@.len() && b@[j] == q;
            if j == 0 {
                assert(b@[j] == lo);
            }
            if j == b@.len() - 1 {
                assert(b@[j] == hi);
            }
            assert(1 <= j < b@.len() - 1);
            assert(cells@[j].start == b@[j]);
            assert(1 <= j < cells@.len() && cells@[j].start == p);
        }
    }
    let out = merge_cells(lo, hi, &cl, &cells);
    out
}

/// No span of `s` covers `p`, so `p` resolves to the unset style.
proof fn lemma_resolved_none(s: Seq<StyleSpan>, p: int)
    requires
        forall|j: int| 0 <= j < s.len() ==> !covers(#[trigger] s[j], p),
    ensures
        resolved_at(s, p) == spec_unset(),
    decreases s.len(),
{
    if s.len() > 0 {
        assert(!covers(s[s.len() - 1], p));
        lemma_resolved_none(s.drop_last(), p);
    }
}

/// Exactly one span of `s` covers `p`, so `p` resolves to its style.
proof fn lemma_resolved_single(s: Seq<StyleSpan>, i: int, p: int)
    requires
        0 <= i < s.len(),
        covers(s[i], p),
        forall|j: int| 0 <= j < s.len() && j != i ==> !covers(#[trigger] s[j], p),
    ensures
        resolved_at(s, p) == s[i].style,
    decreases s.len(),
{
    if i == s.len() - 1 {
        lemma_resolved_none(s.drop_last(), p);
        crate::style::lemma_merge_unset(s[i].style);
    } else {
        assert(!covers(s[s.len() - 1], p));
        lemma_resolved_single(s.drop_last(), i, p);
    }
}

/// Clipping spans that already lie inside `[lo, hi]` and are non-empty
/// changes nothing.
proof fn lemma_clip_identity(lo: usize, hi: usize, s: Seq<StyleSpan>)
    requires
        forall|i: int|
            0 <= i < s.len() ==> lo <= (#[trigger] s[i]).start && s[i].start < s[i].end
                && s[i].end <= hi,
    ensures
        clipped(lo, hi, s) =~= s,
    decreases s.len(),
{
    if s.len() > 0 {
        lemma_clip_identity(lo, hi, s.drop_last());
        assert(spec_clip(lo, hi, s.last()) == s.last());
    }
}

/// The normalization relation determines the output uniquely: element `k` of
/// any two outputs agree.
proof fn lemma_unique_prefix(
    lo: usize,
    hi: usize,
    cl: Seq<StyleSpan>,
    a: Seq<StyleSpan>,
    b: Seq<StyleSpan>,
    k: int,
)
    requires
        lo <= hi,
        is_partition(a, lo, hi),
        pointwise_resolved(a, cl),
        breaks_sound(a, cl),
        breaks_complete(a, lo, hi, cl),
        is_partition(b, lo, hi),
        pointwise_resolved(b, cl),
        breaks_sound(b, cl),
        breaks_complete(b, lo, hi, cl),
        0 <= k < a.len(),
        k < b.len(),
    ensures
        a[k] == b[k],
    decreases k,
{
    if k == 0 {
        assert(a[0].start == lo && b[0].start == lo);
    } else {
        lemma_unique_prefix(lo, hi, cl, a, b, k - 1);
        assert(a[k].start == a[k - 1].end);
        assert(b[k].start == b[k - 1].end);
    }
    let s = a[k].start;
    assert(b[k].start == s);
    // the two cells must end together: an earlier end would be an interior
    // boundary of one output strictly inside a cell of the other
    assert forall|x: Seq<StyleSpan>, y: Seq<StyleSpan>|
        #![trigger x[k], y[k]]
        (is_partition(x, lo, hi) && pointwise_resolved(x, cl) && breaks_sound(x, cl)
            && is_partition(y, lo, hi) && breaks_complete(y, lo, hi, cl) && k < x.len() && k
            < y.len() && x[k].start == s && y[k].start == s) implies !(x[k].end < y[k].end) by {
        if x[k].end < y[k].end {
            let p = x[k].end as int;
            if k == x.len() - 1 {
                assert(x[k].end == hi);
                assert(y[k].end <= hi) by {
                    if k < y.len() - 1 {
                        lemma_chain(y, k, y.len() - 1);
                    }
                }
            } else {
                assert(x[k + 1].start == p);
                assert(endpoint_in(cl, p) && break_needed(cl, p));
                assert(lo < p) by {
                    assert(x[0].start == lo);
                    if 0 < k {
                        lemma_chain(x, 0, k);
                    }
                }
                assert(p < hi) by {
                    assert(p < y[k].end);
                    if k < y.len() - 1 {
                        lemma_chain(y, k, y.len() - 1);
                    }
                }
                let j = choose|j: int| 1 <= j < y.len() && (#[trigger] y[j]).start == p;
                if j < k {
                    lemma_chain(y, j, k);
                } else if j == k {
                    assert(y[k].start == s);
                } else {
                    lemma_chain(y, k, j);
                }
            }
        }
    }
    assert(!(a[k].end < b[k].end));
    assert(!(b[k].end < a[k].end));
    assert(a[k].end == b[k].end);
    assert(a[k].style == resolved_at(cl, s as int)) by {
        assert(a[k].start <= s as int && (s as int) < a[k].end);
    }
    assert(b[k].style == resolved_at(cl, s as int)) by {
        assert(b[k].start <= s as int && (s as int) < b[k].end);
    }
}

/// The four clauses of the normalization relation pin the output down: two
/// normalizations of the same spans over the same range are equal.
pub proof fn lemma_normalized_unique(
    lo: usize,
    hi: usize,
    spans: Seq<StyleSpan>,
    a: Seq<StyleSpan>,
    b: Seq<StyleSpan>,
)
    requires
        lo <= hi,
        norm_rel(lo, hi, spans, a),
        norm_rel(lo, hi, spans, b),
    ensures
        a == b,
{
    let cl = clipped(lo, hi, spans);
    if lo == hi {
        assert(a =~= b);
    } else {
        assert(a.len() > 0 && b.len() > 0);
        assert(a.len() == b.len()) by {
            if a.len() < b.len() {
                let k = a.len() - 1;
                lemma_unique_prefix(lo, hi, cl, a, b, k);
                assert(a[k].end == hi);
                assert(b[k].end == b[k + 1].start);
                assert(b[k + 1].start < b[k + 1].end);
                assert(b[k + 1].end <= hi) by {
                    if k + 1 < b.len() - 1 {
                        lemma_chain(b, k + 1, b.len() - 1);
                    }
                }
            } else if b.len() < a.len() {
                let k = b.len() - 1;
                lemma_unique_prefix(lo, hi, cl, a, b, k);
                assert(b[k].end == hi);
                assert(a[k].end == a[k + 1].start);
                assert(a[k + 1].start < a[k + 1].end);
                assert(a[k + 1].end <= hi) by {
                    if k + 1 < a.len() - 1 {
                        lemma_chain(a, k + 1, a.len() - 1);
                    }
                }
            }
        }
        assert forall|k: int| 0 <= k < a.len() implies a[k] == b[k] by {
            lemma_unique_prefix(lo, hi, cl, a, b, k);
        }
        assert(a =~= b);
    }
}

/// Inside a partition, each offset of a cell is covered by that cell alone,
/// so it resolves to the cell's own style.
proof fn lemma_fp_pointwise(out: Seq<StyleSpan>, lo: usize, hi: usize)
    requires
        is_partition(out, lo, hi),
    ensures
        pointwise_resolved(out, out),
{
    assert forall|i: int, p: int|
        #![trigger out[i], resolved_at(out, p)]
        0 <= i < out.len() && out[i].start <= p < out[i].end implies out[i].style == resolved_at(
        out,
        p,
    ) by {
        assert forall|j: int| 0 <= j < out.len() && j != i implies !covers(#[trigger] out[j], p)
            by {
            if j < i {
                lemma_chain(out, j, i);
            } else {
                lemma_chain(out, i, j);
            }
        }
        lemma_resolved_single(out, i, p);
    }
}

/// Every interior boundary of a partition is the end of the previous cell,
/// hence significant with respect to the partition itself.
proof fn lemma_fp_sound(out: Seq<StyleSpan>, lo: usize, hi: usize)
    requires
        is_partition(out, lo, hi),
    ensures
        breaks_sound(out, out),
{
    assert forall|i: int|
        1 <= i < out.len() implies endpoint_in(out, (#[trigger] out[i]).start as int)
        && break_needed(out, out[i].start as int) by {
        assert(out[i - 1].end == out[i].start);
        assert(is_significant(out, out[i].start as int));
    }
}

/// Every endpoint of a partition's cells that lies strictly inside the range
/// is an interior cell start.
proof fn lemma_fp_complete(out: Seq<StyleSpan>, lo: usize, hi: usize)
    requires
        is_partition(out, lo, hi),
    ensures
        breaks_complete(out, lo, hi, out),
{
    assert forall|p: int|
        lo < p < hi && #[trigger] endpoint_in(out, p) && break_needed(out, p) implies exists|
        i: int,
    |
        1 <= i < out.len() && (#[trigger] out[i]).start == p by {
        let i = choose|i: int|
            0 <= i < out.len() && ((#[trigger] out[i]).start == p || out[i].end == p);
        if out[i].start == p {
            if i == 0 {
                assert(p == lo);
            }
            assert(1 <= i && out[i].start == p);
        } else {
            if i == out.len() - 1 {
                assert(p == hi);
            }
            assert(out[i + 1].start == p);
        }
    }
}

/// A normalized output normalizes to itself: the normalization relation
/// holds of the output taken as its own input.  Together with
/// `lemma_normalized_unique` this makes normalization idempotent.
pub proof fn lemma_normalized_fixed_point(
    lo: usize,
    hi: usize,
    spans: Seq<StyleSpan>,
    out: Seq<StyleSpan>,
)
    requires
        lo <= hi,
        norm_rel(lo, hi, spans, out),
    ensures
        norm_rel(lo, hi, out, out),
{
    assert forall|i: int|
        0 <= i < out.len() implies lo <= (#[trigger] out[i]).start && out[i].start < out[i].end
        && out[i].end <= hi by {
        assert(out[0].start == lo);
        if 0 < i {
            lemma_chain(out, 0, i);
        }
        if i < out.len() - 1 {
            lemma_chain(out, i, out.len() - 1);
        }
    }
    lemma_clip_identity(lo, hi, out);
    assert(clipped(lo, hi, out) == out);
    lemma_fp_pointwise(out, lo, hi);
    lemma_fp_sound(out, lo, hi);
    lemma_fp_complete(out, lo, hi);
}

/// Normalizing a normalized output gives it back unchanged: normalization is
/// idempotent.
pub proof fn lemma_normalize_idempotent(
    lo: usize,
    hi: usize,
    spans: Seq<StyleSpan>,
    once: Seq<StyleSpan>,
    twice: Seq<StyleSpan>,
)
    requires
        lo <= hi,
        norm_rel(lo, hi, spans, once),
        norm_rel(lo, hi, once, twice),
    ensures
        twice == once,
{
    lemma_normalized_fixed_point(lo, hi, spans, once);
    lemma_normalized_unique(lo, hi, once, twice, once);
}

/// Some span of `out` contains the byte at offset `p`.
pub open spec fn covered_by(out: Seq<StyleSpan>, p: int) -> bool {
    exists|i: int| 0 <= i < out.len() && covers(#[trigger] out[i], p)
}

/// A normalized output is sorted and pairwise non-overlapping, lies inside
/// the requested range, and its spans union to exactly that range.
pub proof fn lemma_normalized_covering(lo: usize, hi: usize, spans: Seq<StyleSpan>, out: Seq<
    StyleSpan,
>)
    requires
        lo <= hi,
        norm_rel(lo, hi, spans, out),
    ensures
        forall|i: int, j: int|
            0 <= i < j < out.len() ==> (#[trigger] out[i]).end <= (#[trigger] out[j]).start,
        forall|i: int|
            0 <= i < out.len() ==> lo <= (#[trigger] out[i]).start && out[i].start < out[i].end
                && out[i].end <= hi,
        forall|p: int| lo <= p < hi ==> #[trigger] covered_by(out, p),
{
    assert forall|i: int, j: int|
        0 <= i < j < out.len() implies (#[trigger] out[i]).end <= (#[trigger] out[j]).start by {
        lemma_chain(out, i, j);
    }
    assert forall|i: int|
        0 <= i < out.len() implies lo <= (#[trigger] out[i]).start && out[i].start < out[i].end
        && out[i].end <= hi by {
        if 0 < i {
            lemma_chain(out, 0, i);
        }
        if i < out.len() - 1 {
            lemma_chain(out, i, out.len() - 1);
        }
    }
    assert forall|p: int| lo <= p < hi implies #[trigger] covered_by(out, p) by {
        lemma_partition_covers(out, lo, hi, p);
    }
}

/// Every offset of the range falls in some cell of a partition of it.
proof fn lemma_partition_covers(out: Seq<StyleSpan>, lo: usize, hi: usize, p: int)
    requires
        lo < hi,
        out.len() > 0,
        out[0].start == lo,
        out.last().end == hi,
        forall|i: int| 0 <= i < out.len() ==> (#[trigger] out[i]).start < out[i].end,
        forall|i: int| 0 <= i < out.len() - 1 ==> (#[trigger] out[i]).end == out[i + 1].start,
        lo <= p < hi,
    ensures
        covered_by(out, p),
    decreases out.len(),
{
    let last = out[out.len() - 1];
    if last.start <= p {
        assert(covers(out[out.len() - 1], p));
    } else {
        let front = out.drop_last();
        assert(front.len() > 0) by {
            if out.len() == 1 {
                assert(last.start == lo);
            }
        }
        assert(front[0] == out[0]);
        assert(front.last() == out[out.len() - 2]);
        assert(front.last().end == last.start);
        assert(forall|i: int| 0 <= i < front.len() ==> front[i] == out[i]);
        lemma_partition_covers(front, lo, last.start, p);
        let i = choose|i: int| 0 <= i < front.len() && covers(#[trigger] front[i], p);
        assert(covers(out[i], p));
        assert(covered_by(out, p));
    }
}

/// Normalizing no spans at all yields exactly one unset-styled span covering
/// the whole non-empty range.
pub proof fn lemma_normalized_empty_input(lo: usize, hi: usize, out: Seq<StyleSpan>)
    requires
        lo < hi,
        norm_rel(lo, hi, Seq::empty(), out),
    ensures
        out =~= seq![StyleSpan { start: lo, end: hi, style: spec_unset() }],
{
    let cl = clipped(lo, hi, Seq::<StyleSpan>::empty());
    assert(cl =~= Seq::<StyleSpan>::empty());
    assert(out.len() == 1) by {
        if out.len() >= 2 {
            assert(endpoint_in(cl, out[1].start as int));
            let i = choose|i: int|
                0 <= i < cl.len() && ((#[trigger] cl[i]).start == out[1].start as int
                    || cl[i].end == out[1].start as int);
        }
    }
    assert(out[0].start == lo && out[0].end == hi);
    assert(out[0].style == resolved_at(cl, lo as int)) by {
        assert(out[0].start <= lo as int && (lo as int) < out[0].end);
    }
}

} // verus!
