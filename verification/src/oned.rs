//! One dimensional operations on lists of two dimensional objects: comparing,
//! binning around a divider, sorting and bounding along one axis.
use vstd::prelude::*;
use core::cmp::Ordering;
use crate::geom::{Axis, Range};
use crate::HasAabb;

verus! {

broadcast use {
    vstd::seq_lib::group_to_multiset_ensures,
    vstd::multiset::group_multiset_axioms,
};

/// The range of `b` along `axis`.
pub open spec fn range_of<T: HasAabb>(b: T, axis: Axis) -> Range {
    b.aabb().spec_range(axis)
}

/// The left border of `b` along `axis`: the key by which elements are ordered.
pub open spec fn left_key<T: HasAabb>(b: T, axis: Axis) -> isize {
    b.aabb().spec_range(axis).left
}

/// `s` is sorted by the left border of its elements along `axis`.
pub open spec fn sorted_along<T: HasAabb>(s: Seq<T>, axis: Axis) -> bool {
    forall|i: int, j: int| 0 <= i <= j < s.len() ==> left_key(s[i], axis) <= left_key(s[j], axis)
}

/// `r` intersects the divider `d`: such an element belongs to the node of the divider.
pub open spec fn touches(r: Range, d: isize) -> bool {
    r.left <= d && d <= r.right
}

/// `r` lies entirely to the left of the divider `d`.
pub open spec fn left_of(r: Range, d: isize) -> bool {
    r.left <= d && r.right < d
}

/// `r` lies entirely to the right of the divider `d`.
pub open spec fn right_of(r: Range, d: isize) -> bool {
    d < r.left
}

/// `c` is the smallest range that contains the range along `axis` of every element of `s`,
/// and `None` exactly when `s` is empty.
pub open spec fn is_cont_of<T: HasAabb>(c: Option<Range>, s: Seq<T>, axis: Axis) -> bool {
    match c {
        None => s.len() == 0,
        Some(r) => {
            &&& s.len() > 0
            &&& forall|i: int| 0 <= i < s.len() ==> r.spec_contains_range(#[trigger] range_of(s[i], axis))
            &&& exists|i: int| 0 <= i < s.len() && #[trigger] range_of(s[i], axis).left == r.left
            &&& exists|j: int| 0 <= j < s.len() && #[trigger] range_of(s[j], axis).right == r.right
        },
    }
}

/// Swapping two entries of a sequence keeps its multiset.
pub proof fn lemma_swap_multiset<T>(s: Seq<T>, i: int, j: int)
    requires
        0 <= i < s.len(),
        0 <= j < s.len(),
    ensures
        s.update(i, s[j]).update(j, s[i]).to_multiset() == s.to_multiset(),
{
    broadcast use vstd::seq_lib::to_multiset_update;
    let s1 = s.update(i, s[j]);
    assert(s1[j] == s[j]);
    assert(s1.update(j, s[i]).to_multiset() =~= s.to_multiset());
}

/// `<[T]>::swap` of std: exchanges the elements at `i` and `j`.
#[verifier::external_body]
fn slice_swap<T>(v: &mut [T], i: usize, j: usize)
    requires
        i < old(v)@.len(),
        j < old(v)@.len(),
    ensures
        final(v)@ == old(v)@.update(i as int, old(v)@[j as int]).update(j as int, old(v)@[i as int]),
{
    v.swap(i, j)
}

/// Compares two objects by the left border of their range along `axis`.
pub fn compare_bots<T: HasAabb>(axis: Axis, a: &T, b: &T) -> (r: Ordering)
    ensures
        (r == Ordering::Less) <==> left_key(*a, axis) < left_key(*b, axis),
        (r == Ordering::Equal) <==> left_key(*a, axis) == left_key(*b, axis),
        (r == Ordering::Greater) <==> left_key(*a, axis) > left_key(*b, axis),
{
    let p1 = a.get().get_range(axis).left;
    let p2 = b.get().get_range(axis).left;
    if p1 < p2 {
        Ordering::Less
    } else if p1 == p2 {
        Ordering::Equal
    } else {
        Ordering::Greater
    }
}

/// `s` with its first element moved to its end.
pub open spec fn rotate_first<T>(s: Seq<T>) -> Seq<T> {
    if s.len() == 0 {
        s
    } else {
        s.drop_first().push(s[0])
    }
}

/// The three bins (the elements touching the divider `d` along `axis`, those left of it,
/// those right of it) that binning the elements of `s` one after the other leaves. An
/// element right of the divider is appended to the right bin. An element left of it is
/// appended to the left bin, and the first element of the right bin moves to the end of
/// that bin. An element touching it is appended to the touching bin, and the first
/// elements of the left and of the right bin move to the ends of their bins.
#[verifier::opaque]
pub open spec fn bins_of<T: HasAabb>(s: Seq<T>, axis: Axis, d: isize) -> (Seq<T>, Seq<T>, Seq<T>)
    decreases s.len(),
{
    if s.len() == 0 {
        (Seq::empty(), Seq::empty(), Seq::empty())
    } else {
        let prev = bins_of(s.drop_last(), axis, d);
        let x = s.last();
        if d < range_of(x, axis).left {
            (prev.0, prev.1, prev.2.push(x))
        } else if d > range_of(x, axis).right {
            (prev.0, prev.1.push(x), rotate_first(prev.2))
        } else {
            (prev.0.push(x), rotate_first(prev.1), rotate_first(prev.2))
        }
    }
}

/// Binning one more element of `s`.
proof fn lemma_bins_of_step<T: HasAabb>(s: Seq<T>, i: int, axis: Axis, d: isize)
    requires
        0 <= i < s.len(),
    ensures
        ({
            let prev = bins_of(s.subrange(0, i), axis, d);
            let x = s[i];
            bins_of(s.subrange(0, i + 1), axis, d) == if d < range_of(x, axis).left {
                (prev.0, prev.1, prev.2.push(x))
            } else if d > range_of(x, axis).right {
                (prev.0, prev.1.push(x), rotate_first(prev.2))
            } else {
                (prev.0.push(x), rotate_first(prev.1), rotate_first(prev.2))
            }
        }),
{
    reveal(bins_of);
    assert(s.subrange(0, i + 1).drop_last() =~= s.subrange(0, i));
    assert(s.subrange(0, i + 1).last() == s[i]);
}

/// Binning an element left of the divider exchanges it with the first element of the
/// right bin: it ends the left bin, and the right bin is rotated.
proof fn lemma_bin_left_swap<T>(m: Seq<T>, l: Seq<T>, r: Seq<T>, x: T, rest: Seq<T>)
    ensures
        ({
            let s = m + l + r + seq![x] + rest;
            let i = (m.len() + l.len() + r.len()) as int;
            let le = (m.len() + l.len()) as int;
            s.update(i, s[le]).update(le, s[i]) == m + l.push(x) + rotate_first(r) + rest
        }),
{
    let s = m + l + r + seq![x] + rest;
    let i = (m.len() + l.len() + r.len()) as int;
    let le = (m.len() + l.len()) as int;
    assert(s.update(i, s[le]).update(le, s[i]) =~= m + l.push(x) + rotate_first(r) + rest);
}

/// Binning an element that touches the divider: it is first exchanged with the first element
/// of the right bin, then with the first element of the left bin; it ends the touching bin,
/// and both other bins are rotated.
proof fn lemma_bin_middle_swap<T>(m: Seq<T>, l: Seq<T>, r: Seq<T>, x: T, rest: Seq<T>)
    ensures
        ({
            let s = m + l + r + seq![x] + rest;
            let i = (m.len() + l.len() + r.len()) as int;
            let le = (m.len() + l.len()) as int;
            let me = m.len() as int;
            let s1 = s.update(i, s[le]).update(le, s[i]);
            s1.update(le, s1[me]).update(me, s1[le]) == m.push(x) + rotate_first(l) + rotate_first(r) + rest
        }),
{
    lemma_bin_left_swap(m, l, r, x, rest);
    let s1 = m + l.push(x) + rotate_first(r) + rest;
    let le = (m.len() + l.len()) as int;
    let me = m.len() as int;
    assert(s1.update(le, s1[me]).update(me, s1[le]) =~= m.push(x) + rotate_first(l) + rotate_first(r) + rest);
}

/// Permutes `bots` into three consecutive bins: those that touch the divider `med`
/// along `axis`, those to its left, and those to its right, as `bins_of` describes.
/// Returns the ends of the first two bins.
pub fn bin_in_place<X: HasAabb>(axis: Axis, med: isize, bots: &mut [X]) -> (r: (usize, usize))
    ensures
        ({
            let bins = bins_of(old(bots)@, axis, med);
            &&& final(bots)@ == bins.0 + bins.1 + bins.2
            &&& r.0 == bins.0.len()
            &&& r.1 == bins.0.len() + bins.1.len()
        }),
        final(bots)@.len() == old(bots)@.len(),
        final(bots)@.to_multiset() == old(bots)@.to_multiset(),
        r.0 <= r.1 <= final(bots)@.len(),
        forall|i: int| 0 <= i < r.0 ==> touches(#[trigger] range_of(final(bots)@[i], axis), med),
        forall|i: int| r.0 <= i < r.1 ==> left_of(#[trigger] range_of(final(bots)@[i], axis), med),
        forall|i: int| r.1 <= i < final(bots)@.len() ==> right_of(#[trigger] range_of(final(bots)@[i], axis), med),
{
    let ghost orig = bots@;
    let bot_len = bots.len();
    let mut left_end: usize = 0;
    let mut middle_end: usize = 0;
    let mut index_at: usize = 0;
    assert(orig.subrange(0, 0) =~= Seq::<X>::empty());
    assert(bins_of(Seq::<X>::empty(), axis, med) == (Seq::<X>::empty(), Seq::<X>::empty(), Seq::<X>::empty())) by {
        reveal(bins_of);
    }
    assert(orig.subrange(0, bot_len as int) =~= orig);
    while index_at < bot_len
        invariant
            bot_len == bots@.len(),
            bots@.len() == orig.len(),
            bots@.to_multiset() == orig.to_multiset(),
            middle_end <= left_end <= index_at <= bot_len,
            ({
                let bins = bins_of(orig.subrange(0, index_at as int), axis, med);
                &&& bots@ == bins.0 + bins.1 + bins.2 + orig.subrange(index_at as int, bot_len as int)
                &&& middle_end == bins.0.len()
                &&& left_end == bins.0.len() + bins.1.len()
            }),
            forall|i: int| 0 <= i < middle_end ==> touches(#[trigger] range_of(bots@[i], axis), med),
            forall|i: int| middle_end <= i < left_end ==> left_of(#[trigger] range_of(bots@[i], axis), med),
            forall|i: int| left_end <= i < index_at ==> right_of(#[trigger] range_of(bots@[i], axis), med),
        decreases bot_len - index_at,
    {
        let r = *bots[index_at].get().get_range(axis);
        let ghost s0 = bots@;
        let ghost prev = bins_of(orig.subrange(0, index_at as int), axis, med);
        let ghost rest = orig.subrange(index_at + 1, bot_len as int);
        let ghost x = orig[index_at as int];
        proof {
            lemma_bins_of_step(orig, index_at as int, axis, med);
            assert(orig.subrange(index_at as int, bot_len as int) =~= seq![x] + rest);
            assert(s0 =~= prev.0 + prev.1 + prev.2 + seq![x] + rest);
        }
        if med < r.left {
            // to the right: stays where it is
            proof {
                assert(s0 =~= prev.0 + prev.1 + prev.2.push(x) + rest);
            }
        } else if med > r.right {
            // to the left
            proof {
                lemma_swap_multiset(bots@, index_at as int, left_end as int);
                lemma_bin_left_swap(prev.0, prev.1, prev.2, x, rest);
            }
            slice_swap(bots, index_at, left_end);
            left_end += 1;
        } else {
            // touches the divider
            proof {
                lemma_swap_multiset(bots@, index_at as int, left_end as int);
                lemma_bin_middle_swap(prev.0, prev.1, prev.2, x, rest);
            }
            slice_swap(bots, index_at, left_end);
            proof { lemma_swap_multiset(bots@, left_end as int, middle_end as int); }
            slice_swap(bots, left_end, middle_end);
            middle_end += 1;
            left_end += 1;
        }
        index_at += 1;
    }
    (middle_end, left_end)
}


/// The results of the binning process.
pub struct Binned<'a, T> {
    pub middle: &'a mut [T],
    pub left: &'a mut [T],
    pub right: &'a mut [T],
}

/// Sorts the bots into three bins: those that intersect the divider, those to the left of
/// it, and those to the right. They are laid out in memory in that order:
/// `middle`, then `left`, then `right`.
pub fn bin_middle_left_right<'b, X: HasAabb>(axis: Axis, med: &isize, bots: &'b mut [X]) -> (r: Binned<'b, X>)
    ensures
        ({
            let bins = bins_of(old(bots)@, axis, *med);
            &&& r.middle@ == bins.0
            &&& r.left@ == bins.1
            &&& r.right@ == bins.2
        }),
        (r.middle@ + r.left@ + r.right@).to_multiset() == old(bots)@.to_multiset(),
        forall|i: int| 0 <= i < r.middle@.len() ==> touches(#[trigger] range_of(r.middle@[i], axis), *med),
        forall|i: int| 0 <= i < r.left@.len() ==> left_of(#[trigger] range_of(r.left@[i], axis), *med),
        forall|i: int| 0 <= i < r.right@.len() ==> right_of(#[trigger] range_of(r.right@[i], axis), *med),
        final(bots)@ == final(r.middle)@ + final(r.left)@ + final(r.right)@,
{
    let (middle_end, left_end) = bin_in_place(axis, *med, bots);
    let ghost s = bots@;
    let (rest, right) = bots.split_at_mut(left_end);
    let (middle, left) = rest.split_at_mut(middle_end);
    assert(middle@ + left@ + right@ =~= s);
    Binned { middle, left, right }
}

/// Returns the smallest range that contains the range along `axis` of every element of
/// `middle`, or `None` when `middle` is empty.
pub fn create_cont<T: HasAabb>(axis: Axis, middle: &[T]) -> (r: Option<Range>)
    ensures
        is_cont_of(r, middle@, axis),
{
    if middle.len() == 0 {
        return None;
    }
    let first = middle[0].get().get_range(axis);
    let mut min = first.left;
    let mut max = first.right;
    let ghost mut imin: int = 0;
    let ghost mut imax: int = 0;
    let mut i: usize = 1;
    while i < middle.len()
        invariant
            1 <= i <= middle@.len(),
            forall|k: int| 0 <= k < i ==> (Range { left: min, right: max }).spec_contains_range(#[trigger] range_of(middle@[k], axis)),
            0 <= imin < i,
            range_of(middle@[imin], axis).left == min,
            0 <= imax < i,
            range_of(middle@[imax], axis).right == max,
        decreases middle@.len() - i,
    {
        let a = middle[i].get().get_range(axis);
        if a.left < min {
            min = a.left;
            proof { imin = i as int; }
        }
        if a.right > max {
            max = a.right;
            proof { imax = i as int; }
        }
        i += 1;
    }
    assert(range_of(middle@[imin], axis).left == min);
    assert(range_of(middle@[imax], axis).right == max);
    Some(Range { left: min, right: max })
}

/// `<[T]>::sort_unstable_by` of std, ordering by the left border along `axis`.
#[verifier::external_body]
fn sort_by_left<I: HasAabb>(axis: Axis, bots: &mut [I])
    ensures
        final(bots)@.to_multiset() == old(bots)@.to_multiset(),
        final(bots)@.len() == old(bots)@.len(),
        sorted_along(final(bots)@, axis),
{
    bots.sort_unstable_by(|a, b| compare_bots(axis, a, b))
}

/// Sorts the bots by the left border of their range along `axis`.
pub fn sweeper_update<I: HasAabb>(axis: Axis, collision_botids: &mut [I])
    ensures
        final(collision_botids)@.len() == old(collision_botids)@.len(),
        final(collision_botids)@.to_multiset() == old(collision_botids)@.to_multiset(),
        sorted_along(final(collision_botids)@, axis),
{
    sort_by_left(axis, collision_botids);
}

/// The elements of `s` whose left border along `axis` is `k`, in their order in `s`.
pub open spec fn with_key<T: HasAabb>(s: Seq<T>, axis: Axis, k: isize) -> Seq<T> {
    s.filter(|b: T| left_key(b, axis) == k)
}

/// Exchanging two neighbours with different keys keeps the order of the elements of
/// every key.
proof fn lemma_swap_neighbours_with_key<T: HasAabb>(s: Seq<T>, j: int, axis: Axis, k: isize)
    requires
        0 < j < s.len(),
        left_key(s[j - 1], axis) != left_key(s[j], axis),
    ensures
        with_key(s.update(j - 1, s[j]).update(j, s[j - 1]), axis, k) == with_key(s, axis, k),
{
    broadcast use Seq::filter_distributes_over_add;
    let p = |b: T| left_key(b, axis) == k;
    let a = s.subrange(0, j - 1);
    let c = s.subrange(j + 1, s.len() as int);
    let x = s[j - 1];
    let y = s[j];
    assert(s =~= a + seq![x, y] + c);
    assert(s.update(j - 1, y).update(j, x) =~= a + seq![y, x] + c);
    reveal_with_fuel(Seq::filter, 3);
    assert(seq![x, y].drop_last() =~= seq![x]);
    assert(seq![y, x].drop_last() =~= seq![y]);
    assert(seq![x].drop_last() =~= Seq::<T>::empty());
    assert(seq![y].drop_last() =~= Seq::<T>::empty());
    assert(seq![x, y].filter(p) == seq![y, x].filter(p));
}

/// Sorts the bots by the left border of their range along `axis`, by insertion. The sort
/// is stable: elements with the same left border keep their order.
pub fn sweeper_update_leaf<I: HasAabb>(axis: Axis, values: &mut [I])
    ensures
        final(values)@.len() == old(values)@.len(),
        final(values)@.to_multiset() == old(values)@.to_multiset(),
        sorted_along(final(values)@, axis),
        forall|k: isize| #[trigger] with_key(final(values)@, axis, k) == with_key(old(values)@, axis, k),
{
    let n = values.len();
    let mut i: usize = 0;
    while i < n
        invariant
            n == values@.len(),
            values@.to_multiset() == old(values)@.to_multiset(),
            i <= n,
            forall|a: int, b: int| 0 <= a <= b < i ==> left_key(values@[a], axis) <= left_key(values@[b], axis),
            forall|k: isize| #[trigger] with_key(values@, axis, k) == with_key(old(values)@, axis, k),
        decreases n - i,
    {
        // insert values[i] into the sorted prefix values[0..i]
        let mut j: usize = i;
        while j > 0 && values[j - 1].get().get_range(axis).left > values[j].get().get_range(axis).left
            invariant
                n == values@.len(),
                values@.to_multiset() == old(values)@.to_multiset(),
                i < n,
                j <= i,
                forall|a: int, b: int| 0 <= a <= b <= i && a != j && b != j ==> left_key(values@[a], axis) <= left_key(values@[b], axis),
                forall|b: int| j < b <= i ==> left_key(values@[j as int], axis) <= left_key(#[trigger] values@[b], axis),
                forall|k: isize| #[trigger] with_key(values@, axis, k) == with_key(old(values)@, axis, k),
            decreases j,
        {
            proof {
                lemma_swap_multiset(values@, (j - 1) as int, j as int);
                assert forall|k: isize| #[trigger] with_key(values@.update(j - 1, values@[j as int]).update(j as int, values@[j - 1]), axis, k) == with_key(old(values)@, axis, k) by {
                    lemma_swap_neighbours_with_key(values@, j as int, axis, k);
                }
            }
            slice_swap(values, j - 1, j);
            j -= 1;
        }
        i += 1;
    }
}

} // verus!
