//! What holds of the canonical order of the corners of a box: there is one,
//! it ascends, it goes by comparisons alone, and it is what three rounds of
//! stable sorting give.

use crate::order::{
    before, before_x, before_z, is_canonical, is_permutation, is_rearranged, is_sorted, is_split,
    lemma_before_orders, lemma_split_kept, on_one_side, Axis,
};
use crate::vertex::{Vertex, CORNERS};
use vstd::prelude::*;

verus! {

/// The coordinate of corner `i` that `axis` names.
pub open spec fn coordinate(axis: Axis, v: Seq<Vertex>, i: int) -> int {
    match axis {
        Axis::Z => v[i].z as int,
        Axis::X => v[i].x as int,
        Axis::Y => v[i].y as int,
    }
}

/// Whether corner `i` comes before corner `j` when the round that goes by
/// `axis` begins: by the order in which they came for the first round, and
/// by the round before for the others.
pub open spec fn before_at_start(axis: Axis, v: Seq<Vertex>, i: int, j: int) -> bool {
    match axis {
        Axis::Z => i < j,
        Axis::X => before_z(v, i, j),
        Axis::Y => before_x(v, i, j),
    }
}

/// Whether the places `lo..hi` of `order` are in the order in which the
/// round that goes by `axis` finds them.
pub open spec fn is_sorted_at_start(
    axis: Axis,
    v: Seq<Vertex>,
    order: Seq<usize>,
    lo: int,
    hi: int,
) -> bool {
    forall|a: int, b: int|
        lo <= a < b < hi ==> before_at_start(
            axis,
            v,
            #[trigger] order[a] as int,
            #[trigger] order[b] as int,
        )
}

/// Whether `new` is what a stable sort by `axis` of the places `lo..hi`
/// makes of `old`: the corners of these places in ascending order of the
/// coordinate, those that agree in it in the order that they had.
/// `from[a]` is the place in `old` of the corner at `a`.
pub open spec fn is_stable_sort(
    axis: Axis,
    v: Seq<Vertex>,
    old: Seq<usize>,
    new: Seq<usize>,
    from: Seq<int>,
    lo: int,
    hi: int,
) -> bool {
    &&& is_rearranged(old, new, from, lo, hi)
    &&& forall|a: int, b: int| lo <= a < b < hi ==> #[trigger] from[a] != #[trigger] from[b]
    &&& forall|a: int, b: int|
        lo <= a < b < hi ==> coordinate(axis, v, #[trigger] new[a] as int) <= coordinate(
            axis,
            v,
            #[trigger] new[b] as int,
        )
    &&& forall|a: int, b: int|
        lo <= a < b < hi && coordinate(axis, v, new[a] as int) == coordinate(axis, v, new[b] as int)
            ==> #[trigger] from[a] < #[trigger] from[b]
}

/// The rounds of sorting: which coordinate each goes by, and which places
/// it sorts.
pub open spec fn rounds() -> Seq<(Axis, int, int)> {
    seq![
        (Axis::Z, 0, 8),
        (Axis::X, 0, 4),
        (Axis::Y, 0, 2),
        (Axis::Y, 2, 4),
        (Axis::X, 4, 8),
        (Axis::Y, 4, 6),
        (Axis::Y, 6, 8),
    ]
}

/// Whether corner `k` stands at one of the places `lo..hi` of `order`.
pub open spec fn stands_in(order: Seq<usize>, lo: int, hi: int, k: int) -> bool {
    exists|a: int| lo <= a < hi && #[trigger] order[a] == k
}

/// Whether each corner at the places `lo..hi` of `p` stands at one of these
/// places of `q`.
pub open spec fn holds_all(q: Seq<usize>, p: Seq<usize>, lo: int, hi: int) -> bool {
    forall|a: int| lo <= a < hi ==> #[trigger] stands_in(q, lo, hi, p[a] as int)
}

/// Whether the same corners stand at the places `lo..hi` of `p` and of `q`.
pub open spec fn same_corners(p: Seq<usize>, q: Seq<usize>, lo: int, hi: int) -> bool {
    holds_all(q, p, lo, hi) && holds_all(p, q, lo, hi)
}

/// Whether the corners `i` and `j` compare in `w` as they do in `v`, in each
/// coordinate.
pub open spec fn compare_alike(v: Seq<Vertex>, w: Seq<Vertex>, i: int, j: int) -> bool {
    &&& (v[i].x < v[j].x) == (w[i].x < w[j].x)
    &&& (v[i].y < v[j].y) == (w[i].y < w[j].y)
    &&& (v[i].z < v[j].z) == (w[i].z < w[j].z)
}

/// A list of each corner once holds every corner.
pub proof fn lemma_every_corner_stands(order: Seq<usize>, k: int)
    requires
        is_permutation(order),
        0 <= k < CORNERS,
    ensures
        stands_in(order, 0, 8, k),
{
    if !stands_in(order, 0, 8, k) {
        assert(order[0] != k && order[1] != k && order[2] != k && order[3] != k);
        assert(order[4] != k && order[5] != k && order[6] != k && order[7] != k);
        assert(order[0] != order[1] && order[0] != order[2] && order[0] != order[3]);
        assert(order[0] != order[4] && order[0] != order[5] && order[0] != order[6]);
        assert(order[0] != order[7] && order[1] != order[2] && order[1] != order[3]);
        assert(order[1] != order[4] && order[1] != order[5] && order[1] != order[6]);
        assert(order[1] != order[7] && order[2] != order[3] && order[2] != order[4]);
        assert(order[2] != order[5] && order[2] != order[6] && order[2] != order[7]);
        assert(order[3] != order[4] && order[3] != order[5] && order[3] != order[6]);
        assert(order[3] != order[7] && order[4] != order[5] && order[4] != order[6]);
        assert(order[4] != order[7] && order[5] != order[6] && order[5] != order[7]);
        assert(order[6] != order[7]);
        assert(false);
    }
}

/// Where `p` has the corner that `q` has at the place `c` of the first half
/// of a split, given that a corner of the first half of `p`, at `a`, stands
/// in the second half of `q`, at `b`: in the first half too, and not at `a`.
proof fn lemma_low_source(
    axis: Axis,
    v: Seq<Vertex>,
    p: Seq<usize>,
    q: Seq<usize>,
    lo: int,
    mid: int,
    hi: int,
    a: int,
    b: int,
    c: int,
) -> (d: int)
    requires
        is_permutation(p),
        is_permutation(q),
        0 <= lo <= mid <= hi <= CORNERS,
        same_corners(p, q, lo, hi),
        is_split(axis, v, p, lo, mid, hi),
        is_split(axis, v, q, lo, mid, hi),
        lo <= a < mid <= b < hi,
        p[a] == q[b],
        lo <= c < mid,
    ensures
        lo <= d < mid,
        d != a,
        p[d] == q[c],
{
    assert(stands_in(p, lo, hi, q[c] as int));
    let d = choose|d: int| lo <= d < hi && #[trigger] p[d] == q[c];
    assert(before(axis, v, q[c] as int, q[b] as int));
    if d >= mid {
        assert(before(axis, v, p[a] as int, p[d] as int));
        lemma_before_orders(axis, v, p[a] as int, p[d] as int, 0);
    }
    assert(q[c] != q[b]);
    d
}

/// Where `p` has the corner that `q` has at the place `c` of the second half
/// of a split, given that a corner of the second half of `p`, at `a`, stands
/// in the first half of `q`, at `b`: in the second half too, and not at `a`.
proof fn lemma_high_source(
    axis: Axis,
    v: Seq<Vertex>,
    p: Seq<usize>,
    q: Seq<usize>,
    lo: int,
    mid: int,
    hi: int,
    a: int,
    b: int,
    c: int,
) -> (d: int)
    requires
        is_permutation(p),
        is_permutation(q),
        0 <= lo <= mid <= hi <= CORNERS,
        same_corners(p, q, lo, hi),
        is_split(axis, v, p, lo, mid, hi),
        is_split(axis, v, q, lo, mid, hi),
        lo <= b < mid <= a < hi,
        p[a] == q[b],
        mid <= c < hi,
    ensures
        mid <= d < hi,
        d != a,
        p[d] == q[c],
{
    assert(stands_in(p, lo, hi, q[c] as int));
    let d = choose|d: int| lo <= d < hi && #[trigger] p[d] == q[c];
    assert(before(axis, v, q[b] as int, q[c] as int));
    if d < mid {
        assert(before(axis, v, p[d] as int, p[a] as int));
        lemma_before_orders(axis, v, p[a] as int, p[d] as int, 0);
    }
    assert(q[c] != q[b]);
    d
}

/// A corner of the first half of a split in `p` stands in the first half in
/// `q` too, where the halves have one, two or four places.
proof fn lemma_stays_low(
    axis: Axis,
    v: Seq<Vertex>,
    p: Seq<usize>,
    q: Seq<usize>,
    lo: int,
    mid: int,
    hi: int,
    a: int,
)
    requires
        is_permutation(p),
        is_permutation(q),
        0 <= lo <= mid <= hi <= CORNERS,
        mid - lo == 1 || mid - lo == 2 || mid - lo == 4,
        same_corners(p, q, lo, hi),
        is_split(axis, v, p, lo, mid, hi),
        is_split(axis, v, q, lo, mid, hi),
        lo <= a < mid,
    ensures
        stands_in(q, lo, mid, p[a] as int),
{
    assert(stands_in(q, lo, hi, p[a] as int));
    let b = choose|b: int| lo <= b < hi && #[trigger] q[b] == p[a];
    if b >= mid {
        // As many corners as the half has places would have to stand at the
        // places of the half but one.
        let d0 = lemma_low_source(axis, v, p, q, lo, mid, hi, a, b, lo);
        if mid - lo >= 2 {
            let d1 = lemma_low_source(axis, v, p, q, lo, mid, hi, a, b, lo + 1);
            assert(q[lo] != q[lo + 1]);
            if mid - lo == 4 {
                let d2 = lemma_low_source(axis, v, p, q, lo, mid, hi, a, b, lo + 2);
                let d3 = lemma_low_source(axis, v, p, q, lo, mid, hi, a, b, lo + 3);
                assert(q[lo] != q[lo + 2] && q[lo] != q[lo + 3]);
                assert(q[lo + 1] != q[lo + 2] && q[lo + 1] != q[lo + 3]);
                assert(q[lo + 2] != q[lo + 3]);
                assert(false);
            }
            assert(false);
        }
        assert(false);
    }
}

/// A corner of the second half of a split in `p` stands in the second half in
/// `q` too, where the halves have one, two or four places.
proof fn lemma_stays_high(
    axis: Axis,
    v: Seq<Vertex>,
    p: Seq<usize>,
    q: Seq<usize>,
    lo: int,
    mid: int,
    hi: int,
    a: int,
)
    requires
        is_permutation(p),
        is_permutation(q),
        0 <= lo <= mid <= hi <= CORNERS,
        hi - mid == 1 || hi - mid == 2 || hi - mid == 4,
        same_corners(p, q, lo, hi),
        is_split(axis, v, p, lo, mid, hi),
        is_split(axis, v, q, lo, mid, hi),
        mid <= a < hi,
    ensures
        stands_in(q, mid, hi, p[a] as int),
{
    assert(stands_in(q, lo, hi, p[a] as int));
    let b = choose|b: int| lo <= b < hi && #[trigger] q[b] == p[a];
    if b < mid {
        let d0 = lemma_high_source(axis, v, p, q, lo, mid, hi, a, b, mid);
        if hi - mid >= 2 {
            let d1 = lemma_high_source(axis, v, p, q, lo, mid, hi, a, b, mid + 1);
            assert(q[mid] != q[mid + 1]);
            if hi - mid == 4 {
                let d2 = lemma_high_source(axis, v, p, q, lo, mid, hi, a, b, mid + 2);
                let d3 = lemma_high_source(axis, v, p, q, lo, mid, hi, a, b, mid + 3);
                assert(q[mid] != q[mid + 2] && q[mid] != q[mid + 3]);
                assert(q[mid + 1] != q[mid + 2] && q[mid + 1] != q[mid + 3]);
                assert(q[mid + 2] != q[mid + 3]);
                assert(false);
            }
            assert(false);
        }
        assert(false);
    }
}

/// Two orders that hold the same corners at the places of a split, and both
/// keep the split, hold the same corners in each half of it.
proof fn lemma_same_halves(
    axis: Axis,
    v: Seq<Vertex>,
    p: Seq<usize>,
    q: Seq<usize>,
    lo: int,
    mid: int,
    hi: int,
)
    requires
        is_permutation(p),
        is_permutation(q),
        0 <= lo <= mid <= hi <= CORNERS,
        mid - lo == hi - mid,
        mid - lo == 1 || mid - lo == 2 || mid - lo == 4,
        same_corners(p, q, lo, hi),
        is_split(axis, v, p, lo, mid, hi),
        is_split(axis, v, q, lo, mid, hi),
    ensures
        same_corners(p, q, lo, mid),
        same_corners(p, q, mid, hi),
{
    assert forall|a: int| lo <= a < mid implies #[trigger] stands_in(q, lo, mid, p[a] as int) by {
        lemma_stays_low(axis, v, p, q, lo, mid, hi, a);
    }
    assert forall|a: int| lo <= a < mid implies #[trigger] stands_in(p, lo, mid, q[a] as int) by {
        lemma_stays_low(axis, v, q, p, lo, mid, hi, a);
    }
    assert forall|a: int| mid <= a < hi implies #[trigger] stands_in(q, mid, hi, p[a] as int) by {
        lemma_stays_high(axis, v, p, q, lo, mid, hi, a);
    }
    assert forall|a: int| mid <= a < hi implies #[trigger] stands_in(p, mid, hi, q[a] as int) by {
        lemma_stays_high(axis, v, q, p, lo, mid, hi, a);
    }
}

/// There is one canonical order: two orders of the same corners that are
/// both canonical are the same.
pub proof fn lemma_canonical_order_is_unique(v: Seq<Vertex>, p: Seq<usize>, q: Seq<usize>)
    requires
        is_canonical(v, p),
        is_canonical(v, q),
    ensures
        p == q,
{
    assert forall|a: int| 0 <= a < 8 implies #[trigger] stands_in(q, 0, 8, p[a] as int) by {
        lemma_every_corner_stands(q, p[a] as int);
    }
    assert forall|a: int| 0 <= a < 8 implies #[trigger] stands_in(p, 0, 8, q[a] as int) by {
        lemma_every_corner_stands(p, q[a] as int);
    }
    lemma_same_halves(Axis::Z, v, p, q, 0, 4, 8);
    lemma_same_halves(Axis::X, v, p, q, 0, 2, 4);
    lemma_same_halves(Axis::X, v, p, q, 4, 6, 8);
    lemma_same_halves(Axis::Y, v, p, q, 0, 1, 2);
    lemma_same_halves(Axis::Y, v, p, q, 2, 3, 4);
    lemma_same_halves(Axis::Y, v, p, q, 4, 5, 6);
    lemma_same_halves(Axis::Y, v, p, q, 6, 7, 8);
    assert forall|a: int| 0 <= a < 8 implies p[a] == q[a] by {
        assert(stands_in(q, a, a + 1, p[a] as int));
    }
    assert(p =~= q);
}

/// In the canonical order no corner of the first four lies higher than one
/// of the last four; of four corners, none of the first two has a greater `x`
/// than one of the last two; and of two corners, the first has no greater
/// `y`.
pub proof fn lemma_canonical_order_ascends(v: Seq<Vertex>, order: Seq<usize>)
    requires
        is_canonical(v, order),
    ensures
        forall|a: int, b: int|
            0 <= a < 4 <= b < 8 ==> v[#[trigger] order[a] as int].z <= v[#[trigger] order[b] as int].z,
        forall|a: int, b: int|
            0 <= a < b < 8 && a / 4 == b / 4 && a / 2 != b / 2 ==> v[#[trigger] order[a] as int].x
                <= v[#[trigger] order[b] as int].x,
        forall|a: int|
            0 <= a < 8 && a % 2 == 0 ==> v[#[trigger] order[a] as int].y <= v[order[a + 1] as int].y,
{
    assert forall|a: int, b: int| 0 <= a < 4 <= b < 8 implies v[#[trigger] order[a] as int].z
        <= v[#[trigger] order[b] as int].z by {
        assert(before(Axis::Z, v, order[a] as int, order[b] as int));
    }
    assert forall|a: int, b: int| 0 <= a < b < 8 && a / 4 == b / 4 && a / 2 != b / 2 implies v[
        #[trigger] order[a] as int
    ].x <= v[#[trigger] order[b] as int].x by {
        assert(before(Axis::X, v, order[a] as int, order[b] as int));
    }
    assert forall|a: int| 0 <= a < 8 && a % 2 == 0 implies v[#[trigger] order[a] as int].y <= v[
        order[a + 1] as int
    ].y by {
        assert(before(Axis::Y, v, order[a] as int, order[a + 1] as int));
    }
}

/// The canonical order goes by how the coordinates compare and by nothing
/// else: corners that compare alike have the same canonical order. So any
/// integers that order as the coordinates do may stand for them.
pub proof fn lemma_order_goes_by_comparisons(v: Seq<Vertex>, w: Seq<Vertex>, order: Seq<usize>)
    requires
        forall|i: int, j: int|
            0 <= i < CORNERS && 0 <= j < CORNERS ==> #[trigger] compare_alike(v, w, i, j),
        is_canonical(v, order),
    ensures
        is_canonical(w, order),
{
    assert forall|axis: Axis, i: int, j: int| 0 <= i < CORNERS && 0 <= j < CORNERS implies before(
        axis,
        v,
        i,
        j,
    ) == #[trigger] before(axis, w, i, j) by {
        assert(compare_alike(v, w, i, j));
        assert(compare_alike(v, w, j, i));
    }
    assert forall|axis: Axis, l: int, m: int, h: int|
        0 <= l <= m <= h <= CORNERS && is_split(axis, v, order, l, m, h) implies #[trigger] is_split(
        axis,
        w,
        order,
        l,
        m,
        h,
    ) by {
        assert forall|a: int, b: int| l <= a < m <= b < h implies before(
            axis,
            w,
            #[trigger] order[a] as int,
            #[trigger] order[b] as int,
        ) by {
            assert(before(axis, v, order[a] as int, order[b] as int));
        }
    }
}

/// What a round of stable sorting does: it leaves a list of each corner
/// once, in ascending order at the places that it sorts, where these were in
/// the order in which the round finds them. It keeps the splits on whose one
/// side it sorts, and the order of the places that it does not touch.
proof fn lemma_stable_sort_round(
    axis: Axis,
    v: Seq<Vertex>,
    old: Seq<usize>,
    new: Seq<usize>,
    from: Seq<int>,
    lo: int,
    hi: int,
)
    requires
        0 <= lo <= hi <= CORNERS,
        is_permutation(old),
        is_sorted_at_start(axis, v, old, lo, hi),
        is_stable_sort(axis, v, old, new, from, lo, hi),
    ensures
        is_permutation(new),
        is_sorted(axis, v, new, lo, hi),
        forall|other: Axis, l: int, m: int, h: int|
            0 <= l <= m <= h <= CORNERS && on_one_side(lo, hi, l, m, h) && is_split(
                other,
                v,
                old,
                l,
                m,
                h,
            ) ==> #[trigger] is_split(other, v, new, l, m, h),
        forall|other: Axis, l: int, h: int|
            0 <= l <= h <= CORNERS && (hi <= l || h <= lo) && is_sorted(other, v, old, l, h)
                ==> #[trigger] is_sorted(other, v, new, l, h),
{
    assert forall|a: int, b: int| 0 <= a < b < CORNERS implies #[trigger] new[a] != #[trigger] new[b] by {
        assert(new[a] == old[from[a]] && new[b] == old[from[b]]);
        assert(from[a] != from[b]);
    }
    assert forall|a: int| 0 <= a < CORNERS implies #[trigger] new[a] < CORNERS by {
        assert(new[a] == old[from[a]]);
    }
    assert forall|a: int, b: int| lo <= a < b < hi implies before(
        axis,
        v,
        #[trigger] new[a] as int,
        #[trigger] new[b] as int,
    ) by {
        assert(new[a] == old[from[a]] && new[b] == old[from[b]]);
        assert(coordinate(axis, v, new[a] as int) <= coordinate(axis, v, new[b] as int));
        if coordinate(axis, v, new[a] as int) == coordinate(axis, v, new[b] as int) {
            assert(from[a] < from[b]);
            assert(before_at_start(axis, v, old[from[a]] as int, old[from[b]] as int));
        }
    }
    assert forall|other: Axis, l: int, m: int, h: int|
        0 <= l <= m <= h <= CORNERS && on_one_side(lo, hi, l, m, h) && is_split(
            other,
            v,
            old,
            l,
            m,
            h,
        ) implies #[trigger] is_split(other, v, new, l, m, h) by {
        lemma_split_kept(other, v, old, new, from, lo, hi, l, m, h);
    }
    assert forall|other: Axis, l: int, h: int|
        0 <= l <= h <= CORNERS && (hi <= l || h <= lo) && is_sorted(
            other,
            v,
            old,
            l,
            h,
        ) implies #[trigger] is_sorted(other, v, new, l, h) by {
        assert forall|a: int, b: int| l <= a < b < h implies before(
            other,
            v,
            #[trigger] new[a] as int,
            #[trigger] new[b] as int,
        ) by {
            assert(new[a] == old[from[a]] && new[b] == old[from[b]]);
            assert(before(other, v, old[a] as int, old[b] as int));
        }
    }
}

/// Three rounds of stable sorting give the canonical order: all corners by
/// `z`; the first four by `x`, then the first two and the next two by `y`;
/// the last four by `x`, then the first two and the next two of them by `y`.
///
/// `steps[0]` is the order in which the corners came, and `steps[k + 1]` is
/// what round `k` makes of `steps[k]`; `from[k]` tells for each place where
/// round `k` took its corner from.
pub proof fn lemma_stable_sorting_gives_canonical_order(
    v: Seq<Vertex>,
    steps: Seq<Seq<usize>>,
    from: Seq<Seq<int>>,
)
    requires
        steps.len() == rounds().len() + 1,
        from.len() == rounds().len(),
        steps[0] == seq![0usize, 1, 2, 3, 4, 5, 6, 7],
        forall|k: int|
            0 <= k < rounds().len() ==> is_stable_sort(
                rounds()[k].0,
                v,
                #[trigger] steps[k],
                steps[k + 1],
                from[k],
                rounds()[k].1,
                rounds()[k].2,
            ),
    ensures
        is_canonical(v, steps[7]),
{
    assert(is_permutation(steps[0]));
    assert(is_sorted_at_start(Axis::Z, v, steps[0], 0, 8));
    assert(is_stable_sort(Axis::Z, v, steps[0], steps[1], from[0], 0, 8));
    lemma_stable_sort_round(Axis::Z, v, steps[0], steps[1], from[0], 0, 8);
    assert(is_split(Axis::Z, v, steps[1], 0, 4, 8));
    assert(is_sorted(Axis::Z, v, steps[1], 4, 8));

    assert(is_sorted_at_start(Axis::X, v, steps[1], 0, 4));
    assert(is_stable_sort(Axis::X, v, steps[1], steps[2], from[1], 0, 4));
    lemma_stable_sort_round(Axis::X, v, steps[1], steps[2], from[1], 0, 4);
    assert(is_split(Axis::X, v, steps[2], 0, 2, 4));
    assert(is_sorted(Axis::X, v, steps[2], 2, 4));
    assert(is_sorted(Axis::Z, v, steps[2], 4, 8));

    assert(is_sorted_at_start(Axis::Y, v, steps[2], 0, 2));
    assert(is_stable_sort(Axis::Y, v, steps[2], steps[3], from[2], 0, 2));
    lemma_stable_sort_round(Axis::Y, v, steps[2], steps[3], from[2], 0, 2);
    assert(is_split(Axis::Y, v, steps[3], 0, 1, 2));
    assert(is_sorted(Axis::X, v, steps[3], 2, 4));
    assert(is_sorted(Axis::Z, v, steps[3], 4, 8));

    assert(is_sorted_at_start(Axis::Y, v, steps[3], 2, 4));
    assert(is_stable_sort(Axis::Y, v, steps[3], steps[4], from[3], 2, 4));
    lemma_stable_sort_round(Axis::Y, v, steps[3], steps[4], from[3], 2, 4);
    assert(is_split(Axis::Y, v, steps[4], 2, 3, 4));
    assert(is_sorted(Axis::Z, v, steps[4], 4, 8));

    assert(is_sorted_at_start(Axis::X, v, steps[4], 4, 8));
    assert(is_stable_sort(Axis::X, v, steps[4], steps[5], from[4], 4, 8));
    lemma_stable_sort_round(Axis::X, v, steps[4], steps[5], from[4], 4, 8);
    assert(is_split(Axis::X, v, steps[5], 4, 6, 8));
    assert(is_sorted(Axis::X, v, steps[5], 6, 8));

    assert(is_sorted_at_start(Axis::Y, v, steps[5], 4, 6));
    assert(is_stable_sort(Axis::Y, v, steps[5], steps[6], from[5], 4, 6));
    lemma_stable_sort_round(Axis::Y, v, steps[5], steps[6], from[5], 4, 6);
    assert(is_split(Axis::Y, v, steps[6], 4, 5, 6));
    assert(is_sorted(Axis::X, v, steps[6], 6, 8));

    assert(is_sorted_at_start(Axis::Y, v, steps[6], 6, 8));
    assert(is_stable_sort(Axis::Y, v, steps[6], steps[7], from[6], 6, 8));
    lemma_stable_sort_round(Axis::Y, v, steps[6], steps[7], from[6], 6, 8);
    assert(is_split(Axis::Y, v, steps[7], 6, 7, 8));
}

} // verus!
