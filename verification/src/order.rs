//! The order in which the eight corners of a box are handed on.
//!
//! Whoever draws a box joins its corners by their places in the list, so the
//! places are fixed: the four lowest corners first, among four corners the
//! two with the least `x` first, and of two corners the one with the lesser
//! `y` first.
//!
//! ```text
//!     6 -------- 7
//!    /|         /|
//!   4 -------- 5 .
//!   | |        | |
//!   . 2 -------- 3
//!   |/         |/
//!   0 -------- 1
//! ```
//!
//! This is the order that three rounds of stable sorting give: all eight
//! corners by `z`, then each four by `x`, then each two by `y`. Corners that
//! agree in the coordinate of a round keep the order that the rounds before
//! gave them, and at first the order in which they came.

use crate::vertex::{Vertex, CORNERS};
use vstd::prelude::*;

verus! {

/// The coordinate that a round of the ordering goes by.
#[derive(Clone, Copy, Debug, PartialEq, Eq, Structural)]
pub enum Axis {
    Z,
    X,
    Y,
}

/// Whether corner `i` comes before corner `j` by height: it is lower, or as
/// high and earlier in `v`.
pub open spec fn before_z(v: Seq<Vertex>, i: int, j: int) -> bool {
    v[i].z < v[j].z || (v[i].z == v[j].z && i < j)
}

/// Whether corner `i` comes before corner `j` by `x`, and by height where
/// they agree in `x`.
pub open spec fn before_x(v: Seq<Vertex>, i: int, j: int) -> bool {
    v[i].x < v[j].x || (v[i].x == v[j].x && before_z(v, i, j))
}

/// Whether corner `i` comes before corner `j` by `y`, and by `x` where they
/// agree in `y`.
pub open spec fn before_y(v: Seq<Vertex>, i: int, j: int) -> bool {
    v[i].y < v[j].y || (v[i].y == v[j].y && before_x(v, i, j))
}

/// Whether corner `i` comes before corner `j` in the round that goes by
/// `axis`.
pub open spec fn before(axis: Axis, v: Seq<Vertex>, i: int, j: int) -> bool {
    match axis {
        Axis::Z => before_z(v, i, j),
        Axis::X => before_x(v, i, j),
        Axis::Y => before_y(v, i, j),
    }
}

/// Whether `order` lists each of the eight corners once.
pub open spec fn is_permutation(order: Seq<usize>) -> bool {
    &&& order.len() == CORNERS
    &&& forall|a: int| 0 <= a < CORNERS ==> #[trigger] order[a] < CORNERS
    &&& forall|a: int, b: int| 0 <= a < b < CORNERS ==> #[trigger] order[a] != #[trigger] order[b]
}

/// Whether in `order` every corner at the places `lo..mid` comes before every
/// corner at the places `mid..hi`, by `axis`.
pub open spec fn is_split(
    axis: Axis,
    v: Seq<Vertex>,
    order: Seq<usize>,
    lo: int,
    mid: int,
    hi: int,
) -> bool {
    forall|a: int, b: int|
        lo <= a < mid <= b < hi ==> before(
            axis,
            v,
            #[trigger] order[a] as int,
            #[trigger] order[b] as int,
        )
}

/// Whether `order` is the canonical order of the corners `v`: the four lower
/// corners come first; of four corners, the two with the lesser `x`; of two
/// corners, the one with the lesser `y`.
pub open spec fn is_canonical(v: Seq<Vertex>, order: Seq<usize>) -> bool {
    &&& is_permutation(order)
    &&& is_split(Axis::Z, v, order, 0, 4, 8)
    &&& is_split(Axis::X, v, order, 0, 2, 4)
    &&& is_split(Axis::X, v, order, 4, 6, 8)
    &&& is_split(Axis::Y, v, order, 0, 1, 2)
    &&& is_split(Axis::Y, v, order, 2, 3, 4)
    &&& is_split(Axis::Y, v, order, 4, 5, 6)
    &&& is_split(Axis::Y, v, order, 6, 7, 8)
}

/// Whether the places `lo..hi` of `order` are in ascending order by `axis`.
pub open spec fn is_sorted(axis: Axis, v: Seq<Vertex>, order: Seq<usize>, lo: int, hi: int) -> bool {
    forall|a: int, b: int|
        lo <= a < b < hi ==> before(
            axis,
            v,
            #[trigger] order[a] as int,
            #[trigger] order[b] as int,
        )
}

/// Whether the places `lo..hi` lie on one side of the split `l..m..h`, or
/// outside it.
pub open spec fn on_one_side(lo: int, hi: int, l: int, m: int, h: int) -> bool {
    (l <= lo && hi <= m) || (m <= lo && hi <= h) || hi <= l || h <= lo
}

/// Whether `new` is `old` with the corners at the places `lo..hi` put in
/// another order; `from[a]` is the place in `old` of the corner at `a`.
pub open spec fn is_rearranged(
    old: Seq<usize>,
    new: Seq<usize>,
    from: Seq<int>,
    lo: int,
    hi: int,
) -> bool {
    &&& old.len() == CORNERS
    &&& new.len() == CORNERS
    &&& from.len() == CORNERS
    &&& forall|a: int|
        0 <= a < CORNERS ==> {
            &&& new[a] == old[#[trigger] from[a]]
            &&& (lo <= a < hi ==> lo <= from[a] < hi)
            &&& (!(lo <= a < hi) ==> from[a] == a)
        }
}

/// Of two corners, one comes before the other, and never both; and what
/// comes before a corner comes before all that it comes before.
pub proof fn lemma_before_orders(axis: Axis, v: Seq<Vertex>, i: int, j: int, k: int)
    ensures
        i != j ==> before(axis, v, i, j) || before(axis, v, j, i),
        !(before(axis, v, i, j) && before(axis, v, j, i)),
        before(axis, v, i, j) && before(axis, v, j, k) ==> before(axis, v, i, k),
{
}

/// A split holds on when corners change places on one side of it.
pub proof fn lemma_split_kept(
    axis: Axis,
    v: Seq<Vertex>,
    old: Seq<usize>,
    new: Seq<usize>,
    from: Seq<int>,
    lo: int,
    hi: int,
    l: int,
    m: int,
    h: int,
)
    requires
        0 <= lo <= hi <= CORNERS,
        0 <= l <= m <= h <= CORNERS,
        is_rearranged(old, new, from, lo, hi),
        on_one_side(lo, hi, l, m, h),
        is_split(axis, v, old, l, m, h),
    ensures
        is_split(axis, v, new, l, m, h),
{
    assert forall|a: int, b: int| l <= a < m <= b < h implies before(
        axis,
        v,
        #[trigger] new[a] as int,
        #[trigger] new[b] as int,
    ) by {
        assert(new[a] == old[from[a]] && new[b] == old[from[b]]);
        assert(l <= from[a] < m <= from[b] < h);
    }
}

/// Whether the corner `i` comes before the corner `j` by `axis`.
fn is_before(axis: Axis, v: &[Vertex; 8], i: usize, j: usize) -> (r: bool)
    requires
        i < CORNERS,
        j < CORNERS,
    ensures
        r == before(axis, v@, i as int, j as int),
{
    let a = v[i];
    let b = v[j];
    let by_z = a.z < b.z || (a.z == b.z && i < j);
    let by_x = a.x < b.x || (a.x == b.x && by_z);
    match axis {
        Axis::Z => by_z,
        Axis::X => by_x,
        Axis::Y => a.y < b.y || (a.y == b.y && by_x),
    }
}

/// Puts the corners at the places `lo..hi` of `order` in ascending order by
/// `axis`, and leaves the other places as they are.
fn sort_span(v: &[Vertex; 8], order: &mut [usize; 8], lo: usize, hi: usize, axis: Axis)
    requires
        lo < hi <= CORNERS,
        is_permutation(old(order)@),
    ensures
        is_permutation(final(order)@),
        is_sorted(axis, v@, final(order)@, lo as int, hi as int),
        forall|other: Axis, l: int, m: int, h: int|
            0 <= l <= m <= h <= CORNERS && on_one_side(lo as int, hi as int, l, m, h) && is_split(
                other,
                v@,
                old(order)@,
                l,
                m,
                h,
            ) ==> #[trigger] is_split(other, v@, final(order)@, l, m, h),
{
    let ghost start = order@;
    let ghost mut from: Seq<int> = Seq::new(CORNERS as nat, |a: int| a);
    let mut i: usize = lo + 1;
    while i < hi
        invariant
            lo < i <= hi <= CORNERS,
            is_permutation(order@),
            is_rearranged(start, order@, from, lo as int, hi as int),
            is_sorted(axis, v@, order@, lo as int, i as int),
        decreases hi - i,
    {
        let mut j: usize = i;
        while j > lo && is_before(axis, v, order[j], order[j - 1])
            invariant
                lo <= j <= i < hi <= CORNERS,
                is_permutation(order@),
                is_rearranged(start, order@, from, lo as int, hi as int),
                forall|a: int, b: int|
                    lo <= a < b <= i && a != j && b != j ==> before(
                        axis,
                        v@,
                        #[trigger] order@[a] as int,
                        #[trigger] order@[b] as int,
                    ),
                forall|b: int|
                    j < b <= i ==> before(
                        axis,
                        v@,
                        order@[j as int] as int,
                        #[trigger] order@[b] as int,
                    ),
            decreases j,
        {
            let ghost before_swap = order@;
            let moved = order[j];
            let passed = order[j - 1];
            order[j] = passed;
            order[j - 1] = moved;
            proof {
                let ghost earlier = from;
                from = from.update(j as int, earlier[j - 1]).update(j - 1, earlier[j as int]);
                assert forall|a: int, b: int|
                    lo <= a < b <= i && a != j - 1 && b != j - 1 implies before(
                    axis,
                    v@,
                    #[trigger] order@[a] as int,
                    #[trigger] order@[b] as int,
                ) by {
                    if b == j {
                        assert(before(axis, v@, before_swap[a] as int, before_swap[j - 1] as int));
                    } else if a == j {
                        assert(before(axis, v@, before_swap[j - 1] as int, before_swap[b] as int));
                    } else {
                        assert(before(axis, v@, before_swap[a] as int, before_swap[b] as int));
                    }
                }
                assert forall|b: int| j - 1 < b <= i implies before(
                    axis,
                    v@,
                    order@[j - 1] as int,
                    #[trigger] order@[b] as int,
                ) by {
                    if b > j {
                        assert(before(
                            axis,
                            v@,
                            before_swap[j as int] as int,
                            before_swap[b] as int,
                        ));
                    }
                }
            }
            j -= 1;
        }
        proof {
            assert forall|a: int, b: int| lo <= a < b < i + 1 implies before(
                axis,
                v@,
                #[trigger] order@[a] as int,
                #[trigger] order@[b] as int,
            ) by {
                if b == j {
                    // `a` is left of the corner that moved, which did not
                    // pass its neighbour.
                    assert(order@[j - 1] != order@[j as int]);
                    lemma_before_orders(axis, v@, order@[j as int] as int, order@[j - 1] as int, 0);
                    if a < j - 1 {
                        assert(before(axis, v@, order@[a] as int, order@[j - 1] as int));
                        lemma_before_orders(
                            axis,
                            v@,
                            order@[a] as int,
                            order@[j - 1] as int,
                            order@[j as int] as int,
                        );
                    }
                }
            }
        }
        i += 1;
    }
    proof {
        assert forall|other: Axis, l: int, m: int, h: int|
            0 <= l <= m <= h <= CORNERS && on_one_side(lo as int, hi as int, l, m, h) && is_split(
                other,
                v@,
                start,
                l,
                m,
                h,
            ) implies #[trigger] is_split(other, v@, order@, l, m, h) by {
            lemma_split_kept(other, v@, start, order@, from, lo as int, hi as int, l, m, h);
        }
    }
}

/// The canonical order of the corners `vertexes`: at each place, which of
/// them belongs there.
pub fn canonical_order(vertexes: &[Vertex; 8]) -> (order: [usize; 8])
    ensures
        is_canonical(vertexes@, order@),
{
    let mut order: [usize; 8] = [0, 1, 2, 3, 4, 5, 6, 7];
    sort_span(vertexes, &mut order, 0, 8, Axis::Z);
    assert(is_split(Axis::Z, vertexes@, order@, 0, 4, 8));
    sort_span(vertexes, &mut order, 0, 4, Axis::X);
    assert(is_split(Axis::X, vertexes@, order@, 0, 2, 4));
    sort_span(vertexes, &mut order, 4, 8, Axis::X);
    assert(is_split(Axis::X, vertexes@, order@, 4, 6, 8));
    sort_span(vertexes, &mut order, 0, 2, Axis::Y);
    assert(is_split(Axis::Y, vertexes@, order@, 0, 1, 2));
    sort_span(vertexes, &mut order, 2, 4, Axis::Y);
    assert(is_split(Axis::Y, vertexes@, order@, 2, 3, 4));
    sort_span(vertexes, &mut order, 4, 6, Axis::Y);
    assert(is_split(Axis::Y, vertexes@, order@, 4, 5, 6));
    sort_span(vertexes, &mut order, 6, 8, Axis::Y);
    assert(is_split(Axis::Y, vertexes@, order@, 6, 7, 8));
    order
}

/// The eight `items` in the order `order`: at each place `a` the item that
/// was at place `order[a]`.
///
/// This carries whatever belongs to the corners, such as their coordinates,
/// along with them.
pub fn arrange<T: Copy>(items: &[T; 8], order: &[usize; 8]) -> (arranged: [T; 8])
    requires
        forall|a: int| 0 <= a < CORNERS ==> #[trigger] order@[a] < CORNERS,
    ensures
        forall|a: int| 0 <= a < CORNERS ==> #[trigger] arranged@[a] == items@[order@[a] as int],
{
    [
        items[order[0]],
        items[order[1]],
        items[order[2]],
        items[order[3]],
        items[order[4]],
        items[order[5]],
        items[order[6]],
        items[order[7]],
    ]
}

/// Puts the corners `vertexes` in their canonical order, and says where each
/// came from: the corner now at place `a` was at place `order[a]`.
pub fn sort_vertexes(vertexes: &mut [Vertex; 8]) -> (order: [usize; 8])
    ensures
        is_canonical(old(vertexes)@, order@),
        forall|a: int|
            0 <= a < CORNERS ==> #[trigger] final(vertexes)@[a] == old(vertexes)@[order@[a] as int],
{
    let order = canonical_order(vertexes);
    let sorted = arrange(vertexes, &order);
    *vertexes = sorted;
    order
}

} // verus!
