//! Checking, at run time, that a tree satisfies the invariants of a dinotree.
use vstd::prelude::*;
use crate::geom::{Axis, Range};
use crate::oned::{create_cont, is_cont_of, left_key, left_of, range_of, right_of, sorted_along, touches};
use crate::tree::{DinoTree, count_at_most, count_below, div_ok, is_median_left, key_at_most, key_below, num_nodes_of_height, wf_subtree, Node};
use crate::tree::layout::lemma_cont_unique;
use crate::HasAabb;

verus! {

/// Whether `s` is sorted by left border along `axis`.
pub fn check_sorted<T: HasAabb>(axis: Axis, s: &[T]) -> (r: bool)
    ensures
        r == sorted_along(s@, axis),
{
    let n = s.len();
    if n == 0 {
        return true;
    }
    let mut i: usize = 0;
    while i + 1 < n
        invariant
            n == s@.len(),
            n >= 1,
            i + 1 <= n,
            forall|a: int, b: int| 0 <= a <= b <= i ==> left_key(s@[a], axis) <= left_key(s@[b], axis),
        decreases n - i,
    {
        let k0 = s[i].get().get_range(axis).left;
        let k1 = s[i + 1].get().get_range(axis).left;
        if k0 > k1 {
            assert(!sorted_along(s@, axis)) by {
                assert(left_key(s@[i as int], axis) > left_key(s@[i + 1], axis));
            }
            return false;
        }
        i += 1;
    }
    true
}

/// Whether `c` is the smallest range that contains every element of `s` along `axis`.
pub fn check_cont<T: HasAabb>(axis: Axis, c: &Option<Range>, s: &[T]) -> (r: bool)
    ensures
        r == is_cont_of(*c, s@, axis),
{
    let computed = create_cont(axis, s);
    let same = match (computed, *c) {
        (None, None) => true,
        (Some(a), Some(b)) => a.left == b.left && a.right == b.right,
        _ => false,
    };
    proof {
        if is_cont_of(*c, s@, axis) {
            lemma_cont_unique(computed, *c, s@, axis);
        }
    }
    same
}

/// The number of elements of `s` whose left border along `axis` is below `d`, and the
/// number whose left border is at most `d`.
pub fn count_keys<T: HasAabb>(axis: Axis, d: isize, s: &[T]) -> (r: (usize, usize))
    ensures
        r.0 == count_below(s@, axis, d),
        r.1 == count_at_most(s@, axis, d),
{
    let n = s.len();
    let mut below: usize = 0;
    let mut at_most: usize = 0;
    let mut i: usize = 0;
    while i < n
        invariant
            n == s@.len(),
            i <= n,
            below <= i,
            at_most <= i,
            below == s@.subrange(0, i as int).filter(key_below::<T>(axis, d)).len(),
            at_most == s@.subrange(0, i as int).filter(key_at_most::<T>(axis, d)).len(),
        decreases n - i,
    {
        let k = s[i].get().get_range(axis).left;
        proof {
            assert(s@.subrange(0, i + 1) =~= s@.subrange(0, i as int).push(s@[i as int]));
            s@.subrange(0, i as int).lemma_filter_len_push(key_below::<T>(axis, d), s@[i as int]);
            s@.subrange(0, i as int).lemma_filter_len_push(key_at_most::<T>(axis, d), s@[i as int]);
        }
        if k < d {
            below += 1;
        }
        if k <= d {
            at_most += 1;
        }
        i += 1;
    }
    assert(s@.subrange(0, n as int) =~= s@);
    (below, at_most)
}

/// Whether `d` is the left border along `axis` of the median element of `s`.
pub fn check_median<T: HasAabb>(axis: Axis, d: isize, s: &[T]) -> (r: bool)
    ensures
        r == is_median_left(d, s@, axis),
{
    let n = s.len();
    let mut found = false;
    let mut i: usize = 0;
    while i < n
        invariant
            n == s@.len(),
            i <= n,
            found <==> exists|k: int| 0 <= k < i && #[trigger] left_key(s@[k], axis) == d,
        decreases n - i,
    {
        let k = s[i].get().get_range(axis).left;
        assert(k == left_key(s@[i as int], axis));
        if k == d {
            found = true;
        }
        proof {
            if !found {
                assert forall|j: int| 0 <= j < i + 1 implies #[trigger] left_key(s@[j], axis) != d by {
                    if j < i {
                        if left_key(s@[j], axis) == d {
                            assert(exists|k: int| 0 <= k < i && #[trigger] left_key(s@[k], axis) == d);
                        }
                    }
                }
            }
        }
        i += 1;
    }
    let (below, at_most) = count_keys(axis, d, s);
    found && below <= n / 2 && n / 2 < at_most
}

/// Whether every element of `s` touches the divider `d` along `axis`.
pub fn check_all_touch<T: HasAabb>(axis: Axis, d: isize, s: &[T]) -> (r: bool)
    ensures
        r == forall|i: int| 0 <= i < s@.len() ==> touches(#[trigger] range_of(s@[i], axis), d),
{
    let n = s.len();
    let mut i: usize = 0;
    while i < n
        invariant
            n == s@.len(),
            i <= n,
            forall|k: int| 0 <= k < i ==> touches(#[trigger] range_of(s@[k], axis), d),
        decreases n - i,
    {
        let r = s[i].get().get_range(axis);
        if !(r.left <= d && d <= r.right) {
            assert(!touches(range_of(s@[i as int], axis), d));
            return false;
        }
        i += 1;
    }
    true
}

/// Whether every element of `s` lies left of the divider `d` along `axis`.
pub fn check_all_left<T: HasAabb>(axis: Axis, d: isize, s: &[T]) -> (r: bool)
    ensures
        r == forall|i: int| 0 <= i < s@.len() ==> left_of(#[trigger] range_of(s@[i], axis), d),
{
    let n = s.len();
    let mut i: usize = 0;
    while i < n
        invariant
            n == s@.len(),
            i <= n,
            forall|k: int| 0 <= k < i ==> left_of(#[trigger] range_of(s@[k], axis), d),
        decreases n - i,
    {
        let r = s[i].get().get_range(axis);
        if !(r.left <= d && r.right < d) {
            assert(!left_of(range_of(s@[i as int], axis), d));
            return false;
        }
        i += 1;
    }
    true
}

/// Whether every element of `s` lies right of the divider `d` along `axis`.
pub fn check_all_right<T: HasAabb>(axis: Axis, d: isize, s: &[T]) -> (r: bool)
    ensures
        r == forall|i: int| 0 <= i < s@.len() ==> right_of(#[trigger] range_of(s@[i], axis), d),
{
    let n = s.len();
    let mut i: usize = 0;
    while i < n
        invariant
            n == s@.len(),
            i <= n,
            forall|k: int| 0 <= k < i ==> right_of(#[trigger] range_of(s@[k], axis), d),
        decreases n - i,
    {
        let r = s[i].get().get_range(axis);
        if !(d < r.left) {
            assert(!right_of(range_of(s@[i as int], axis), d));
            return false;
        }
        i += 1;
    }
    true
}

/// Whether `div` is a valid divider for a node with the elements `mid`, whose subtrees
/// hold `left` and `right`, all of them being `all`.
pub fn check_div<T: HasAabb>(div: &Option<isize>, axis: Axis, mid: &[T], left: &[T], right: &[T], all: &[T]) -> (r: bool)
    ensures
        r == div_ok(*div, axis, mid@, left@, right@, all@),
{
    match *div {
        None => all.len() == 0,
        Some(d) => {
            all.len() > 0 && check_median(axis, d, all) && check_all_touch(axis, d, mid)
                && check_all_left(axis, d, left) && check_all_right(axis, d, right)
        },
    }
}

/// Whether `nodes` over `bots` form a well formed subtree of height `h`.
pub fn check_subtree<T: HasAabb>(axis: Axis, h: usize, nodes: &[Node], bots: &[T], base: usize, sorted: bool) -> (r: bool)
    requires
        base + bots@.len() <= usize::MAX,
    ensures
        r == wf_subtree(axis, h as nat, nodes@, bots@, base as int, sorted),
    decreases h,
{
    if h == 0 {
        return false;
    }
    proof {
        assert(num_nodes_of_height(0) == 0);
        assert(num_nodes_of_height(h as nat) == 2 * num_nodes_of_height((h - 1) as nat) + 1);
    }
    let len = nodes.len();
    if len == 0 {
        return false;
    }
    let n = nodes[0];
    if n.start != base || n.len > bots.len() {
        return false;
    }
    let mid = vstd::slice::slice_subrange(bots, 0, n.len);
    if sorted && !check_sorted(axis.next(), mid) {
        return false;
    }
    if !check_cont(axis, &n.cont, mid) {
        return false;
    }
    if h == 1 {
        return len == 1 && n.len == bots.len() && n.div.is_none();
    }
    if len % 2 == 0 || len < 3 {
        proof {
            if wf_subtree(axis, h as nat, nodes@, bots@, base as int, sorted) {
                assert(num_nodes_of_height((h - 1) as nat) >= 1) by {
                    assert(num_nodes_of_height((h - 1) as nat) == 2 * num_nodes_of_height((h - 2) as nat) + 1);
                }
            }
        }
        return false;
    }
    let s = (len - 1) / 2;
    let right_start = nodes[1 + s].start;
    if right_start < base {
        return false;
    }
    let split = right_start - base;
    if split < n.len || split > bots.len() {
        return false;
    }
    let left = vstd::slice::slice_subrange(bots, n.len, split);
    let right = vstd::slice::slice_subrange(bots, split, bots.len());
    if !check_div(&n.div, axis, mid, left, right, bots) {
        return false;
    }
    let ok_left = check_subtree(axis.next(), h - 1, vstd::slice::slice_subrange(nodes, 1, 1 + s), left, base + n.len, sorted);
    let ok_right = check_subtree(axis.next(), h - 1, vstd::slice::slice_subrange(nodes, 1 + s, len), right, right_start, sorted);
    proof {
        let hh = (h - 1) as nat;
        if ok_left {
            assert(nodes@.subrange(1, 1 + s as int).len() == num_nodes_of_height(hh));
        }
        if wf_subtree(axis, h as nat, nodes@, bots@, base as int, sorted) {
            assert(s == num_nodes_of_height(hh));
        }
    }
    ok_left && ok_right
}

/// `Ok` exactly when the tree satisfies the invariants of a dinotree.
pub fn are_invariants_met<'a, T: HasAabb>(tree: &DinoTree<'a, T>) -> (r: Result<(), ()>)
    ensures
        r is Ok <==> tree.wf(),
{
    if tree.assert_invariants() {
        Ok(())
    } else {
        Err(())
    }
}

} // verus!
