//! In-place partition of a range of object indices about a split plane.
use crate::aabb::Aabb;
use crate::cell::UNIT;
use crate::vec3::{max_int, min_int};
use vstd::prelude::*;

verus! {

/// Twice the centre of a box along `dim`: the sum of its two bounds. The
/// centre itself need not be a lattice point.
pub open spec fn twice_center(b: Aabb, dim: int) -> int {
    b.mins.at(dim) + b.maxs.at(dim)
}

/// Whether the object at position `p` of `index` belongs to the left of the
/// plane `half`, given in plane units: the centre of its box, taken exactly,
/// is at most the plane.
pub open spec fn goes_left(boxes: Seq<Aabb>, index: Seq<usize>, p: int, half: int, dim: int) -> bool {
    twice_center(boxes[index[p] as int], dim) * UNIT <= 2 * half
}

/// The sequence with the entries at `i` and `j` exchanged.
pub open spec fn swapped(s: Seq<usize>, i: int, j: int) -> Seq<usize> {
    s.update(i, s[j]).update(j, s[i])
}

/// Every entry of `index` names a box.
pub open spec fn names_boxes(index: Seq<usize>, count: int) -> bool {
    forall|p: int| 0 <= p < index.len() ==> (#[trigger] index[p]) < count
}

/// The two sequences hold the same entries, with the same multiplicities, at the
/// positions `lo..hi`.
pub open spec fn same_range(a: Seq<usize>, b: Seq<usize>, lo: int, hi: int) -> bool {
    a.subrange(lo, hi).to_multiset() == b.subrange(lo, hi).to_multiset()
}

/// The two sequences agree at every position outside `lo..hi`.
pub open spec fn same_outside(a: Seq<usize>, b: Seq<usize>, lo: int, hi: int) -> bool {
    &&& a.len() == b.len()
    &&& forall|p: int| 0 <= p < a.len() && !(lo <= p < hi) ==> a[p] == b[p]
}

/// The arrangement that the two-pointer scan leaves, and the first position of
/// the right part.
///
/// The scan looks at the leftmost position not yet placed: an object that goes
/// left stays, any other is exchanged with the rightmost position not yet placed.
pub open spec fn partition(
    boxes: Seq<Aabb>,
    index: Seq<usize>,
    half: int,
    dim: int,
    left: int,
    right: int,
) -> (Seq<usize>, int)
    decreases right - left,
{
    if left >= right {
        (index, left)
    } else if goes_left(boxes, index, left, half, dim) {
        partition(boxes, index, half, dim, left + 1, right)
    } else {
        partition(boxes, swapped(index, left, right - 1), half, dim, left, right - 1)
    }
}

/// The largest upper bound along `dim` among the objects at positions `lo..hi`,
/// or the least coordinate when the range is empty.
pub open spec fn max_upper(boxes: Seq<Aabb>, index: Seq<usize>, dim: int, lo: int, hi: int) -> int
    decreases hi - lo,
{
    if hi <= lo {
        i32::MIN as int
    } else {
        max_int(boxes[index[hi - 1] as int].maxs.at(dim), max_upper(boxes, index, dim, lo, hi - 1))
    }
}

/// The least lower bound along `dim` among the objects at positions `lo..hi`,
/// or the largest coordinate when the range is empty.
pub open spec fn min_lower(boxes: Seq<Aabb>, index: Seq<usize>, dim: int, lo: int, hi: int) -> int
    decreases hi - lo,
{
    if hi <= lo {
        i32::MAX as int
    } else {
        min_int(boxes[index[hi - 1] as int].mins.at(dim), min_lower(boxes, index, dim, lo, hi - 1))
    }
}

/// Both bounds of a range depend only on the entries inside it.
pub proof fn lemma_bounds_local(
    boxes: Seq<Aabb>,
    a: Seq<usize>,
    b: Seq<usize>,
    dim: int,
    lo: int,
    hi: int,
)
    requires
        forall|p: int| lo <= p < hi ==> a[p] == b[p],
    ensures
        max_upper(boxes, a, dim, lo, hi) == max_upper(boxes, b, dim, lo, hi),
        min_lower(boxes, a, dim, lo, hi) == min_lower(boxes, b, dim, lo, hi),
    decreases hi - lo,
{
    if hi > lo {
        lemma_bounds_local(boxes, a, b, dim, lo, hi - 1);
    }
}

/// The bounds of a range are those of its two parts, combined.
pub proof fn lemma_bounds_split(
    boxes: Seq<Aabb>,
    index: Seq<usize>,
    dim: int,
    lo: int,
    mid: int,
    hi: int,
)
    requires
        lo <= mid <= hi,
    ensures
        max_upper(boxes, index, dim, lo, hi) == max_int(
            max_upper(boxes, index, dim, lo, mid),
            max_upper(boxes, index, dim, mid, hi),
        ),
        min_lower(boxes, index, dim, lo, hi) == min_int(
            min_lower(boxes, index, dim, lo, mid),
            min_lower(boxes, index, dim, mid, hi),
        ),
    decreases hi - mid,
{
    if hi > mid {
        lemma_bounds_split(boxes, index, dim, lo, mid, hi - 1);
    }
}

/// What the bounds of a range mean: no object of the range reaches beyond them,
/// and in a range that holds objects some object attains each.
pub proof fn lemma_bounds_meaning(
    boxes: Seq<Aabb>,
    index: Seq<usize>,
    dim: int,
    lo: int,
    hi: int,
)
    ensures
        forall|p: int|
            lo <= p < hi ==> (#[trigger] boxes[index[p] as int]).maxs.at(dim) <= max_upper(
                boxes,
                index,
                dim,
                lo,
                hi,
            ),
        forall|p: int|
            lo <= p < hi ==> (#[trigger] boxes[index[p] as int]).mins.at(dim) >= min_lower(
                boxes,
                index,
                dim,
                lo,
                hi,
            ),
        lo < hi ==> exists|p: int|
            lo <= p < hi && (#[trigger] boxes[index[p] as int]).maxs.at(dim) == max_upper(
                boxes,
                index,
                dim,
                lo,
                hi,
            ),
        lo < hi ==> exists|p: int|
            lo <= p < hi && (#[trigger] boxes[index[p] as int]).mins.at(dim) == min_lower(
                boxes,
                index,
                dim,
                lo,
                hi,
            ),
        i32::MIN <= max_upper(boxes, index, dim, lo, hi) <= i32::MAX,
        i32::MIN <= min_lower(boxes, index, dim, lo, hi) <= i32::MAX,
    decreases hi - lo,
{
    if hi > lo {
        lemma_bounds_meaning(boxes, index, dim, lo, hi - 1);
        let last = boxes[index[hi - 1] as int];
        if hi - 1 > lo {
            let p = choose|p: int|
                lo <= p < hi - 1 && (#[trigger] boxes[index[p] as int]).maxs.at(dim) == max_upper(
                    boxes,
                    index,
                    dim,
                    lo,
                    hi - 1,
                );
            let q = choose|q: int|
                lo <= q < hi - 1 && (#[trigger] boxes[index[q] as int]).mins.at(dim) == min_lower(
                    boxes,
                    index,
                    dim,
                    lo,
                    hi - 1,
                );
            if last.maxs.at(dim) >= max_upper(boxes, index, dim, lo, hi - 1) {
                assert(boxes[index[hi - 1] as int].maxs.at(dim) == max_upper(boxes, index, dim, lo, hi));
            } else {
                assert(boxes[index[p] as int].maxs.at(dim) == max_upper(boxes, index, dim, lo, hi));
            }
            if last.mins.at(dim) <= min_lower(boxes, index, dim, lo, hi - 1) {
                assert(boxes[index[hi - 1] as int].mins.at(dim) == min_lower(boxes, index, dim, lo, hi));
            } else {
                assert(boxes[index[q] as int].mins.at(dim) == min_lower(boxes, index, dim, lo, hi));
            }
        } else {
            assert(boxes[index[hi - 1] as int].maxs.at(dim) == max_upper(boxes, index, dim, lo, hi));
            assert(boxes[index[hi - 1] as int].mins.at(dim) == min_lower(boxes, index, dim, lo, hi));
        }
    }
}

/// Exchanging two entries of a range keeps the entries of the range.
pub proof fn lemma_swap_same_range(s: Seq<usize>, i: int, j: int, lo: int, hi: int)
    requires
        0 <= lo <= i < hi <= s.len(),
        lo <= j < hi,
    ensures
        same_range(swapped(s, i, j), s, lo, hi),
        same_outside(swapped(s, i, j), s, lo, hi),
{
    broadcast use vstd::seq_lib::group_to_multiset_ensures;
    broadcast use vstd::multiset::group_multiset_axioms;

    let r = s.subrange(lo, hi);
    let t = r.update(i - lo, r[j - lo]).update(j - lo, r[i - lo]);
    assert(swapped(s, i, j).subrange(lo, hi) =~= t);
    assert(t.to_multiset() =~= r.to_multiset());
}

/// A range cut out of a larger range whose entries are kept, the rest of it
/// unchanged, keeps its entries too.
pub proof fn lemma_same_range_widen(a: Seq<usize>, b: Seq<usize>, lo: int, hi: int, wlo: int, whi: int)
    requires
        0 <= wlo <= lo <= hi <= whi <= a.len(),
        same_range(a, b, lo, hi),
        same_outside(a, b, lo, hi),
    ensures
        same_range(a, b, wlo, whi),
        same_outside(a, b, wlo, whi),
{
    broadcast use vstd::seq_lib::lemma_multiset_commutative;

    assert(a.subrange(wlo, whi) =~= a.subrange(wlo, lo) + a.subrange(lo, hi) + a.subrange(hi, whi));
    assert(b.subrange(wlo, whi) =~= b.subrange(wlo, lo) + b.subrange(lo, hi) + b.subrange(hi, whi));
    assert(a.subrange(wlo, lo) =~= b.subrange(wlo, lo));
    assert(a.subrange(hi, whi) =~= b.subrange(hi, whi));
}

/// Whether `value` stands at one of the positions `lo..hi` of `s`.
pub open spec fn occurs(s: Seq<usize>, value: usize, lo: int, hi: int) -> bool {
    exists|q: int| lo <= q < hi && s[q] == value
}

/// Where two sequences hold the same entries in a range, each entry of the one
/// stands somewhere in the range of the other.
pub proof fn lemma_same_range_entries(a: Seq<usize>, b: Seq<usize>, lo: int, hi: int)
    requires
        0 <= lo <= hi <= a.len(),
        a.len() == b.len(),
        same_range(a, b, lo, hi),
    ensures
        forall|p: int| lo <= p < hi ==> occurs(b, #[trigger] a[p], lo, hi),
        forall|q: int| lo <= q < hi ==> occurs(a, #[trigger] b[q], lo, hi),
{
    broadcast use vstd::seq_lib::group_to_multiset_ensures;

    let ra = a.subrange(lo, hi);
    let rb = b.subrange(lo, hi);
    assert forall|p: int| lo <= p < hi implies occurs(b, #[trigger] a[p], lo, hi) by {
        assert(ra[p - lo] == a[p]);
        assert(ra.contains(a[p]));
        assert(rb.to_multiset().count(a[p]) > 0);
        assert(rb.contains(a[p]));
        let k = choose|k: int| 0 <= k < rb.len() && rb[k] == a[p];
        assert(b[k + lo] == a[p]);
    }
    assert forall|q: int| lo <= q < hi implies occurs(a, #[trigger] b[q], lo, hi) by {
        assert(rb[q - lo] == b[q]);
        assert(rb.contains(b[q]));
        assert(ra.to_multiset().count(b[q]) > 0);
        assert(ra.contains(b[q]));
        let k = choose|k: int| 0 <= k < ra.len() && ra[k] == b[q];
        assert(a[k + lo] == b[q]);
    }
}

/// What `partition` does to the arrangement: the boundary lies in the range,
/// the objects before it go left and those from it on do not, and the range
/// keeps its entries while the rest stays as it was.
pub proof fn lemma_partition(
    boxes: Seq<Aabb>,
    index: Seq<usize>,
    half: int,
    dim: int,
    left: int,
    right: int,
)
    requires
        0 <= left <= right <= index.len(),
    ensures
        ({
            let (out, end) = partition(boxes, index, half, dim, left, right);
            &&& left <= end <= right
            &&& out.len() == index.len()
            &&& forall|p: int| left <= p < end ==> goes_left(boxes, out, p, half, dim)
            &&& forall|p: int| end <= p < right ==> !goes_left(boxes, out, p, half, dim)
            &&& same_range(out, index, left, right)
            &&& same_outside(out, index, left, right)
        }),
    decreases right - left,
{
    if left >= right {
    } else if goes_left(boxes, index, left, half, dim) {
        lemma_partition(boxes, index, half, dim, left + 1, right);
        let (out, end) = partition(boxes, index, half, dim, left + 1, right);
        lemma_same_range_widen(out, index, left + 1, right, left, right);
    } else {
        let sw = swapped(index, left, right - 1);
        lemma_partition(boxes, sw, half, dim, left, right - 1);
        let (out, end) = partition(boxes, sw, half, dim, left, right - 1);
        lemma_same_range_widen(out, sw, left, right - 1, left, right);
        lemma_swap_same_range(index, left, right - 1, left, right);
        assert(out[right - 1] == sw[right - 1]);
    }
}

} // verus!
