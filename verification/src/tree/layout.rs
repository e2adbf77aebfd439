//! The layout of a tree only depends on the elements it is built over: two well formed
//! trees of the same height, whose first divider has the same axis, over the same
//! elements (in any order) have the same nodes.
use vstd::prelude::*;
use crate::geom::{Axis, Range};
use crate::oned::{is_cont_of, left_key, left_of, range_of, right_of, touches};
use crate::oned::sorted_along;
use crate::tree::{
    count_at_most, count_below, div_ok, is_median_left, key_at_most, key_below, lemma_all_perm,
    lemma_filter_len_at_least, lemma_filter_len_at_most, lemma_filter_len_perm,
    lemma_median_perm, num_nodes_of_height, wf_subtree, Node,
};
use crate::HasAabb;

verus! {

broadcast use {
    vstd::seq_lib::group_to_multiset_ensures,
    vstd::multiset::group_multiset_axioms,
};

/// If `p` implies `q`, fewer elements satisfy `p` than `q`.
proof fn lemma_filter_len_monotone<T>(s: Seq<T>, p: spec_fn(T) -> bool, q: spec_fn(T) -> bool)
    requires
        forall|x: T| #[trigger] p(x) ==> q(x),
    ensures
        s.filter(p).len() <= s.filter(q).len(),
    decreases s.len(),
{
    reveal(Seq::filter);
    if s.len() > 0 {
        lemma_filter_len_monotone(s.drop_last(), p, q);
    }
}

/// The left border of the median element is unique.
pub proof fn lemma_median_unique<T: HasAabb>(d1: isize, d2: isize, s: Seq<T>, axis: Axis)
    requires
        is_median_left(d1, s, axis),
        is_median_left(d2, s, axis),
    ensures
        d1 == d2,
{
    if d1 < d2 {
        lemma_filter_len_monotone(s, key_at_most::<T>(axis, d1), key_below::<T>(axis, d2));
    } else if d2 < d1 {
        lemma_filter_len_monotone(s, key_at_most::<T>(axis, d2), key_below::<T>(axis, d1));
    }
}

/// In a sorted sequence, the key at index `i` is preceded by fewer than `i + 1` smaller
/// keys and followed by no key that is not larger.
proof fn lemma_sorted_key_counts<T: HasAabb>(s: Seq<T>, axis: Axis, i: int)
    requires
        sorted_along(s, axis),
        0 <= i < s.len(),
    ensures
        count_below(s, axis, left_key(s[i], axis)) <= i,
        count_at_most(s, axis, left_key(s[i], axis)) >= i + 1,
{
    let k = left_key(s[i], axis);
    assert forall|j: int| i <= j < s.len() implies !key_below::<T>(axis, k)(#[trigger] s[j]) by {
        assert(left_key(s[i], axis) <= left_key(s[j], axis));
    }
    lemma_filter_len_at_most(s, key_below::<T>(axis, k), i);
    assert forall|j: int| 0 <= j < i + 1 implies key_at_most::<T>(axis, k)(#[trigger] s[j]) by {
        assert(left_key(s[j], axis) <= left_key(s[i], axis));
    }
    lemma_filter_len_at_least(s, key_at_most::<T>(axis, k), i + 1);
}

/// Two sorted sequences of the same elements (in any order) have the same key at every
/// index: sorting determines the sequence of keys, whatever the sort did with equal keys.
pub proof fn lemma_sorted_same_keys<T: HasAabb>(s1: Seq<T>, s2: Seq<T>, axis: Axis)
    requires
        sorted_along(s1, axis),
        sorted_along(s2, axis),
        s1.to_multiset() == s2.to_multiset(),
    ensures
        s1.len() == s2.len(),
        forall|i: int| 0 <= i < s1.len() ==> #[trigger] left_key(s1[i], axis) == left_key(s2[i], axis),
{
    s1.to_multiset_ensures();
    s2.to_multiset_ensures();
    assert forall|i: int| 0 <= i < s1.len() implies #[trigger] left_key(s1[i], axis) == left_key(s2[i], axis) by {
        let k1 = left_key(s1[i], axis);
        let k2 = left_key(s2[i], axis);
        lemma_sorted_key_counts(s1, axis, i);
        lemma_sorted_key_counts(s2, axis, i);
        lemma_filter_len_perm(s1, s2, key_at_most::<T>(axis, k1));
        lemma_filter_len_perm(s1, s2, key_at_most::<T>(axis, k2));
        lemma_filter_len_perm(s1, s2, key_below::<T>(axis, k1));
        lemma_filter_len_perm(s1, s2, key_below::<T>(axis, k2));
        if k1 < k2 {
            lemma_filter_len_monotone(s2, key_at_most::<T>(axis, k1), key_below::<T>(axis, k2));
        } else if k2 < k1 {
            lemma_filter_len_monotone(s1, key_at_most::<T>(axis, k2), key_below::<T>(axis, k1));
        }
    }
}

/// Whether a range bounds a sequence exactly only depends on the multiset of its elements.
pub proof fn lemma_cont_perm<T: HasAabb>(c: Option<Range>, s1: Seq<T>, s2: Seq<T>, axis: Axis)
    requires
        s1.to_multiset() == s2.to_multiset(),
        is_cont_of(c, s1, axis),
    ensures
        is_cont_of(c, s2, axis),
{
    s1.to_multiset_ensures();
    s2.to_multiset_ensures();
    if let Some(r) = c {
        let p = |b: T| r.spec_contains_range(range_of(b, axis));
        assert forall|i: int| 0 <= i < s1.len() implies p(#[trigger] s1[i]) by {}
        lemma_all_perm(s1, s2, p);
        assert forall|i: int| 0 <= i < s2.len() implies r.spec_contains_range(#[trigger] range_of(s2[i], axis)) by {
            assert(p(s2[i]));
        }
        let i = choose|i: int| 0 <= i < s1.len() && #[trigger] range_of(s1[i], axis).left == r.left;
        assert(s1.to_multiset().count(s1[i]) > 0);
        assert(s2.contains(s1[i]));
        let i2 = choose|k: int| 0 <= k < s2.len() && s2[k] == s1[i];
        assert(range_of(s2[i2], axis).left == r.left);
        let j = choose|j: int| 0 <= j < s1.len() && #[trigger] range_of(s1[j], axis).right == r.right;
        assert(s1.to_multiset().count(s1[j]) > 0);
        assert(s2.contains(s1[j]));
        let j2 = choose|k: int| 0 <= k < s2.len() && s2[k] == s1[j];
        assert(range_of(s2[j2], axis).right == r.right);
    }
}

/// Two ranges that both bound `s` exactly are equal.
pub proof fn lemma_cont_unique<T: HasAabb>(c1: Option<Range>, c2: Option<Range>, s: Seq<T>, axis: Axis)
    requires
        is_cont_of(c1, s, axis),
        is_cont_of(c2, s, axis),
    ensures
        c1 == c2,
{
    if let (Some(r1), Some(r2)) = (c1, c2) {
        let i1 = choose|i: int| 0 <= i < s.len() && #[trigger] range_of(s[i], axis).left == r1.left;
        let i2 = choose|i: int| 0 <= i < s.len() && #[trigger] range_of(s[i], axis).left == r2.left;
        let j1 = choose|j: int| 0 <= j < s.len() && #[trigger] range_of(s[j], axis).right == r1.right;
        let j2 = choose|j: int| 0 <= j < s.len() && #[trigger] range_of(s[j], axis).right == r2.right;
        assert(r2.spec_contains_range(range_of(s[i1], axis)));
        assert(r1.spec_contains_range(range_of(s[i2], axis)));
        assert(r2.spec_contains_range(range_of(s[j1], axis)));
        assert(r1.spec_contains_range(range_of(s[j2], axis)));
    }
}

/// When every element of `a` satisfies `p` and no element of `b` or `c` does, the elements
/// of `a + b + c` that satisfy `p` are those of `a`.
proof fn lemma_filter_first_part<T>(a: Seq<T>, b: Seq<T>, c: Seq<T>, p: spec_fn(T) -> bool)
    requires
        forall|i: int| 0 <= i < a.len() ==> p(#[trigger] a[i]),
        forall|i: int| 0 <= i < b.len() ==> !p(#[trigger] b[i]),
        forall|i: int| 0 <= i < c.len() ==> !p(#[trigger] c[i]),
    ensures
        (a + b + c).to_multiset().filter(p) =~= a.to_multiset(),
{
    vstd::seq_lib::lemma_multiset_commutative(a + b, c);
    vstd::seq_lib::lemma_multiset_commutative(a, b);
    a.to_multiset_ensures();
    b.to_multiset_ensures();
    c.to_multiset_ensures();
    assert forall|v: T| (a + b + c).to_multiset().filter(p).count(v) == a.to_multiset().count(v) by {
        if a.to_multiset().count(v) > 0 {
            assert(a.contains(v));
        }
        if p(v) {
            if b.to_multiset().count(v) > 0 {
                assert(b.contains(v));
            }
            if c.to_multiset().count(v) > 0 {
                assert(c.contains(v));
            }
        }
    }
}

/// The node of a divider holds the elements that touch it, its left subtree those left of
/// it, and its right subtree those right of it.
proof fn lemma_bins_are_filters<T: HasAabb>(d: isize, axis: Axis, mid: Seq<T>, left: Seq<T>, right: Seq<T>)
    requires
        forall|i: int| 0 <= i < mid.len() ==> touches(#[trigger] range_of(mid[i], axis), d),
        forall|i: int| 0 <= i < left.len() ==> left_of(#[trigger] range_of(left[i], axis), d),
        forall|i: int| 0 <= i < right.len() ==> right_of(#[trigger] range_of(right[i], axis), d),
    ensures
        (mid + left + right).to_multiset().filter(|b: T| touches(range_of(b, axis), d)) =~= mid.to_multiset(),
        (mid + left + right).to_multiset().filter(|b: T| left_of(range_of(b, axis), d)) =~= left.to_multiset(),
        (mid + left + right).to_multiset().filter(|b: T| right_of(range_of(b, axis), d)) =~= right.to_multiset(),
{
    let pt = |b: T| touches(range_of(b, axis), d);
    let pl = |b: T| left_of(range_of(b, axis), d);
    let pr = |b: T| right_of(range_of(b, axis), d);
    assert forall|i: int| 0 <= i < mid.len() implies #[trigger] pt(mid[i]) && !pl(mid[i]) && !pr(mid[i]) by {
        assert(touches(range_of(mid[i], axis), d));
    }
    assert forall|i: int| 0 <= i < left.len() implies #[trigger] pl(left[i]) && !pt(left[i]) && !pr(left[i]) by {
        assert(left_of(range_of(left[i], axis), d));
    }
    assert forall|i: int| 0 <= i < right.len() implies #[trigger] pr(right[i]) && !pt(right[i]) && !pl(right[i]) by {
        assert(right_of(range_of(right[i], axis), d));
    }
    lemma_filter_first_part(mid, left, right, pt);
    lemma_filter_first_part(left, right, mid, pl);
    lemma_filter_first_part(right, mid, left, pr);
    vstd::seq_lib::lemma_multiset_commutative(mid + left, right);
    vstd::seq_lib::lemma_multiset_commutative(mid, left);
    vstd::seq_lib::lemma_multiset_commutative(left + right, mid);
    vstd::seq_lib::lemma_multiset_commutative(left, right);
    vstd::seq_lib::lemma_multiset_commutative(right + mid, left);
    vstd::seq_lib::lemma_multiset_commutative(right, mid);
    assert((left + right + mid).to_multiset() =~= (mid + left + right).to_multiset());
    assert((right + mid + left).to_multiset() =~= (mid + left + right).to_multiset());
}

/// The elements of node `i`, of a subtree whose elements start at index `base` of the tree.
pub open spec fn node_bots<T>(nodes: Seq<Node>, bots: Seq<T>, base: int, i: int) -> Seq<T> {
    bots.subrange(nodes[i].start - base, nodes[i].start - base + nodes[i].len)
}

/// Every node of a well formed subtree holds a run of the subtree's elements.
pub proof fn lemma_node_bounds<T: HasAabb>(
    axis: Axis,
    h: nat,
    nodes: Seq<Node>,
    bots: Seq<T>,
    base: int,
    sorted: bool,
)
    requires
        wf_subtree(axis, h, nodes, bots, base, sorted),
    ensures
        forall|i: int| 0 <= i < nodes.len() ==> base <= #[trigger] nodes[i].start
            && nodes[i].start + nodes[i].len <= base + bots.len(),
    decreases h,
{
    if h >= 2 {
        let n = nodes[0];
        let s = num_nodes_of_height((h - 1) as nat) as int;
        let split = nodes[1 + s].start - base;
        let ln = nodes.subrange(1, 1 + s);
        let rn = nodes.subrange(1 + s, nodes.len() as int);
        lemma_node_bounds(axis.spec_next(), (h - 1) as nat, ln, bots.subrange(n.len as int, split), base + n.len, sorted);
        lemma_node_bounds(axis.spec_next(), (h - 1) as nat, rn, bots.subrange(split, bots.len() as int), base + split, sorted);
        assert forall|i: int| 0 <= i < nodes.len() implies base <= #[trigger] nodes[i].start
            && nodes[i].start + nodes[i].len <= base + bots.len() by {
            if 1 <= i < 1 + s {
                assert(ln[i - 1] == nodes[i]);
            } else if i >= 1 + s {
                assert(rn[i - 1 - s] == nodes[i]);
            }
        }
    }
}

/// Two well formed subtrees of the same height, whose first divider has the same axis,
/// whose elements start at the same index and are the same elements (in any order), have
/// the same nodes: where every node starts, how many elements it holds, its bounding range
/// and its divider only depend on the elements the tree was built over; so do the
/// elements of every node, up to their order.
pub proof fn lemma_layout_determined<T: HasAabb>(
    axis: Axis,
    h: nat,
    nodes1: Seq<Node>,
    bots1: Seq<T>,
    nodes2: Seq<Node>,
    bots2: Seq<T>,
    base: int,
    sorted1: bool,
    sorted2: bool,
)
    requires
        wf_subtree(axis, h, nodes1, bots1, base, sorted1),
        wf_subtree(axis, h, nodes2, bots2, base, sorted2),
        bots1.to_multiset() == bots2.to_multiset(),
    ensures
        nodes1 == nodes2,
        forall|i: int| 0 <= i < nodes1.len() ==> (#[trigger] node_bots(nodes1, bots1, base, i)).to_multiset()
            == node_bots(nodes2, bots2, base, i).to_multiset(),
    decreases h,
{
    bots1.to_multiset_ensures();
    bots2.to_multiset_ensures();
    let a = nodes1[0];
    let b = nodes2[0];
    if h == 1 {
        assert(bots2.subrange(0, b.len as int) =~= bots2);
        lemma_cont_perm(b.cont, bots2.subrange(0, b.len as int), bots1, axis);
        assert(bots1.subrange(0, a.len as int) =~= bots1);
        lemma_cont_unique(a.cont, b.cont, bots1, axis);
        assert(nodes1 =~= nodes2);
        assert(node_bots(nodes1, bots1, base, 0) =~= bots1);
        assert(node_bots(nodes2, bots2, base, 0) =~= bots2);
    } else {
        let s = num_nodes_of_height((h - 1) as nat) as int;
        let split1 = nodes1[1 + s].start - base;
        let split2 = nodes2[1 + s].start - base;
        let mid1 = bots1.subrange(0, a.len as int);
        let left1 = bots1.subrange(a.len as int, split1);
        let right1 = bots1.subrange(split1, bots1.len() as int);
        let mid2 = bots2.subrange(0, b.len as int);
        let left2 = bots2.subrange(b.len as int, split2);
        let right2 = bots2.subrange(split2, bots2.len() as int);
        assert(bots1 =~= mid1 + left1 + right1);
        assert(bots2 =~= mid2 + left2 + right2);
        if bots1.len() == 0 {
            assert(mid1.len() == 0 && left1.len() == 0 && right1.len() == 0);
            assert(mid2.len() == 0 && left2.len() == 0 && right2.len() == 0);
            assert(mid1 =~= mid2);
            assert(left1 =~= left2);
            assert(right1 =~= right2);
            lemma_cont_unique(a.cont, b.cont, mid1, axis);
        } else {
            let d1 = a.div.unwrap();
            let d2 = b.div.unwrap();
            lemma_median_perm(d2, bots2, bots1, axis);
            lemma_median_unique(d1, d2, bots1, axis);
            lemma_bins_are_filters(d1, axis, mid1, left1, right1);
            lemma_bins_are_filters(d1, axis, mid2, left2, right2);
            mid1.to_multiset_ensures();
            mid2.to_multiset_ensures();
            left1.to_multiset_ensures();
            left2.to_multiset_ensures();
            right1.to_multiset_ensures();
            right2.to_multiset_ensures();
            lemma_cont_perm(b.cont, mid2, mid1, axis);
            lemma_cont_unique(a.cont, b.cont, mid1, axis);
        }
        lemma_layout_determined(
            axis.spec_next(),
            (h - 1) as nat,
            nodes1.subrange(1, 1 + s),
            left1,
            nodes2.subrange(1, 1 + s),
            left2,
            base + a.len,
            sorted1,
            sorted2,
        );
        lemma_layout_determined(
            axis.spec_next(),
            (h - 1) as nat,
            nodes1.subrange(1 + s, nodes1.len() as int),
            right1,
            nodes2.subrange(1 + s, nodes2.len() as int),
            right2,
            base + split1,
            sorted1,
            sorted2,
        );
        assert forall|i: int| 0 <= i < nodes1.len() implies nodes1[i] == nodes2[i] by {
            if 1 <= i < 1 + s {
                assert(nodes1.subrange(1, 1 + s)[i - 1] == nodes1[i]);
                assert(nodes2.subrange(1, 1 + s)[i - 1] == nodes2[i]);
            } else if i >= 1 + s {
                assert(nodes1.subrange(1 + s, nodes1.len() as int)[i - 1 - s] == nodes1[i]);
                assert(nodes2.subrange(1 + s, nodes2.len() as int)[i - 1 - s] == nodes2[i]);
            }
        }
        assert(nodes1 =~= nodes2);
        lemma_node_contents_split(axis, h, nodes1, bots1, base, sorted1);
        lemma_node_contents_split(axis, h, nodes2, bots2, base, sorted2);
        assert forall|i: int| 0 <= i < nodes1.len() implies (#[trigger] node_bots(nodes1, bots1, base, i)).to_multiset()
            == node_bots(nodes2, bots2, base, i).to_multiset() by {
            if i == 0 {
                assert(node_bots(nodes1, bots1, base, 0) =~= mid1);
                assert(node_bots(nodes2, bots2, base, 0) =~= mid2);
                if bots1.len() == 0 {
                    assert(mid1 =~= mid2);
                }
            } else if i < 1 + s {
                assert(node_bots(nodes1.subrange(1, 1 + s), left1, base + a.len, i - 1).to_multiset()
                    == node_bots(nodes2.subrange(1, 1 + s), left2, base + a.len, i - 1).to_multiset());
            } else {
                assert(node_bots(nodes1.subrange(1 + s, nodes1.len() as int), right1, base + split1, i - 1 - s).to_multiset()
                    == node_bots(nodes2.subrange(1 + s, nodes2.len() as int), right2, base + split1, i - 1 - s).to_multiset());
            }
        }
    }
}

/// The elements of every node below the root are the elements of that node in the
/// subtree that holds it.
proof fn lemma_node_contents_split<T: HasAabb>(
    axis: Axis,
    h: nat,
    nodes: Seq<Node>,
    bots: Seq<T>,
    base: int,
    sorted: bool,
)
    requires
        h >= 2,
        wf_subtree(axis, h, nodes, bots, base, sorted),
    ensures
        ({
            let n = nodes[0];
            let s = num_nodes_of_height((h - 1) as nat) as int;
            let split = nodes[1 + s].start - base;
            &&& forall|i: int| 1 <= i < 1 + s ==> #[trigger] node_bots(nodes, bots, base, i)
                == node_bots(nodes.subrange(1, 1 + s), bots.subrange(n.len as int, split), base + n.len, i - 1)
            &&& forall|i: int| 1 + s <= i < nodes.len() ==> #[trigger] node_bots(nodes, bots, base, i)
                == node_bots(nodes.subrange(1 + s, nodes.len() as int), bots.subrange(split, bots.len() as int), base + split, i - 1 - s)
        }),
{
    let n = nodes[0];
    let s = num_nodes_of_height((h - 1) as nat) as int;
    let split = nodes[1 + s].start - base;
    let ln = nodes.subrange(1, 1 + s);
    let rn = nodes.subrange(1 + s, nodes.len() as int);
    let lb = bots.subrange(n.len as int, split);
    let rb = bots.subrange(split, bots.len() as int);
    lemma_node_bounds(axis.spec_next(), (h - 1) as nat, ln, lb, base + n.len, sorted);
    lemma_node_bounds(axis.spec_next(), (h - 1) as nat, rn, rb, base + split, sorted);
    assert forall|i: int| 1 <= i < 1 + s implies #[trigger] node_bots(nodes, bots, base, i)
        == node_bots(ln, lb, base + n.len, i - 1) by {
        assert(ln[i - 1] == nodes[i]);
        assert(node_bots(nodes, bots, base, i) =~= node_bots(ln, lb, base + n.len, i - 1));
    }
    assert forall|i: int| 1 + s <= i < nodes.len() implies #[trigger] node_bots(nodes, bots, base, i)
        == node_bots(rn, rb, base + split, i - 1 - s) by {
        assert(rn[i - 1 - s] == nodes[i]);
        assert(node_bots(nodes, bots, base, i) =~= node_bots(rn, rb, base + split, i - 1 - s));
    }
}

/// `s1` and `s2` hold elements with the same bounding boxes, index by index.
pub open spec fn same_boxes<A: HasAabb, B: HasAabb>(s1: Seq<A>, s2: Seq<B>) -> bool {
    &&& s1.len() == s2.len()
    &&& forall|i: int| 0 <= i < s1.len() ==> #[trigger] s1[i].aabb() == s2[i].aabb()
}

/// Filters whose predicates agree index by index keep as many elements.
proof fn lemma_filter_len_same<A, B>(s1: Seq<A>, s2: Seq<B>, p1: spec_fn(A) -> bool, p2: spec_fn(B) -> bool)
    requires
        s1.len() == s2.len(),
        forall|i: int| 0 <= i < s1.len() ==> p1(#[trigger] s1[i]) == p2(s2[i]),
    ensures
        s1.filter(p1).len() == s2.filter(p2).len(),
    decreases s1.len(),
{
    reveal(Seq::filter);
    if s1.len() > 0 {
        let r1 = s1.drop_last();
        let r2 = s2.drop_last();
        assert forall|i: int| 0 <= i < r1.len() implies p1(#[trigger] r1[i]) == p2(r2[i]) by {
            assert(r1[i] == s1[i]);
            assert(r2[i] == s2[i]);
        }
        lemma_filter_len_same(r1, r2, p1, p2);
        assert(p1(s1[s1.len() - 1]) == p2(s2[s2.len() - 1]));
    }
}

/// Sub ranges of sequences with the same boxes have the same boxes.
proof fn lemma_same_boxes_subrange<A: HasAabb, B: HasAabb>(s1: Seq<A>, s2: Seq<B>, i: int, j: int)
    requires
        same_boxes(s1, s2),
        0 <= i <= j <= s1.len(),
    ensures
        same_boxes(s1.subrange(i, j), s2.subrange(i, j)),
{
    assert forall|k: int| 0 <= k < j - i implies #[trigger] s1.subrange(i, j)[k].aabb() == s2.subrange(i, j)[k].aabb() by {
        assert(s1.subrange(i, j)[k] == s1[i + k]);
        assert(s2.subrange(i, j)[k] == s2[i + k]);
    }
}

/// The invariant of a tree only looks at the bounding boxes of its elements: it holds of
/// elements with the same boxes, index by index.
pub proof fn lemma_wf_same_boxes<A: HasAabb, B: HasAabb>(
    axis: Axis,
    h: nat,
    nodes: Seq<Node>,
    s1: Seq<A>,
    s2: Seq<B>,
    base: int,
    sorted: bool,
)
    requires
        wf_subtree(axis, h, nodes, s1, base, sorted),
        same_boxes(s1, s2),
    ensures
        wf_subtree(axis, h, nodes, s2, base, sorted),
    decreases h,
{
    let n = nodes[0];
    let m1 = s1.subrange(0, n.len as int);
    let m2 = s2.subrange(0, n.len as int);
    lemma_same_boxes_subrange(s1, s2, 0, n.len as int);
    assert forall|i: int| 0 <= i < m1.len() implies #[trigger] range_of(m1[i], axis) == range_of(m2[i], axis) && range_of(m1[i], axis.spec_next()) == range_of(m2[i], axis.spec_next()) by {
        assert(m1[i].aabb() == m2[i].aabb());
    }
    if sorted {
        assert forall|i: int, j: int| 0 <= i <= j < m2.len() implies left_key(m2[i], axis.spec_next()) <= left_key(m2[j], axis.spec_next()) by {
            assert(left_key(m1[i], axis.spec_next()) <= left_key(m1[j], axis.spec_next()));
        }
    }
    if let Some(r) = n.cont {
        let i = choose|i: int| 0 <= i < m1.len() && #[trigger] range_of(m1[i], axis).left == r.left;
        let j = choose|j: int| 0 <= j < m1.len() && #[trigger] range_of(m1[j], axis).right == r.right;
        assert(range_of(m2[i], axis).left == r.left);
        assert(range_of(m2[j], axis).right == r.right);
        assert forall|k: int| 0 <= k < m2.len() implies r.spec_contains_range(#[trigger] range_of(m2[k], axis)) by {
            assert(r.spec_contains_range(range_of(m1[k], axis)));
        }
    }
    if h >= 2 {
        let s = num_nodes_of_height((h - 1) as nat) as int;
        let split = nodes[1 + s].start - base;
        lemma_same_boxes_subrange(s1, s2, n.len as int, split);
        lemma_same_boxes_subrange(s1, s2, split, s1.len() as int);
        let l1 = s1.subrange(n.len as int, split);
        let l2 = s2.subrange(n.len as int, split);
        let r1 = s1.subrange(split, s1.len() as int);
        let r2 = s2.subrange(split, s2.len() as int);
        if let Some(d) = n.div {
            lemma_filter_len_same(s1, s2, key_below::<A>(axis, d), key_below::<B>(axis, d));
            lemma_filter_len_same(s1, s2, key_at_most::<A>(axis, d), key_at_most::<B>(axis, d));
            let i = choose|i: int| 0 <= i < s1.len() && #[trigger] left_key(s1[i], axis) == d;
            assert(left_key(s2[i], axis) == d);
            assert forall|k: int| 0 <= k < m2.len() implies touches(#[trigger] range_of(m2[k], axis), d) by {
                assert(touches(range_of(m1[k], axis), d));
            }
            assert forall|k: int| 0 <= k < l2.len() implies left_of(#[trigger] range_of(l2[k], axis), d) by {
                assert(l1[k].aabb() == l2[k].aabb());
                assert(left_of(range_of(l1[k], axis), d));
            }
            assert forall|k: int| 0 <= k < r2.len() implies right_of(#[trigger] range_of(r2[k], axis), d) by {
                assert(r1[k].aabb() == r2[k].aabb());
                assert(right_of(range_of(r1[k], axis), d));
            }
        }
        lemma_wf_same_boxes(axis.spec_next(), (h - 1) as nat, nodes.subrange(1, 1 + s), l1, l2, base + n.len, sorted);
        lemma_wf_same_boxes(axis.spec_next(), (h - 1) as nat, nodes.subrange(1 + s, nodes.len() as int), r1, r2, base + split, sorted);
    }
}

} // verus!
