//! Construction of the tree: the recursive median split, and the invariant that every
//! constructed tree satisfies.
use vstd::prelude::*;
use crate::geom::{Axis, Range};
pub mod dinotree_good;
pub mod dinotree_indirect;
pub mod notsorted;
pub mod layout;

use crate::HasAabb;
use crate::elem::ProtectedBBoxSlice;
use crate::assert_invariants::check_subtree;
use crate::par::{Depth, Joiner, ParResult, Parallel};
use vstd::arithmetic::power2::{pow2, lemma2_to64, lemma_pow2_pos, lemma_pow2_unfold};
use vstd::bits::{lemma_usize_pow2_no_overflow, lemma_usize_shl_is_mul};
use crate::oned::{compare_bots, bin_in_place, create_cont, is_cont_of, left_key, left_of, range_of, right_of, sorted_along, sweeper_update, touches};

verus! {

broadcast use {
    vstd::seq_lib::group_to_multiset_ensures,
    vstd::multiset::group_multiset_axioms,
};

/// The metadata of one node of the tree. The elements of the node are the `len`
/// elements that start at index `start` of the tree's element slice.
#[derive(Copy, Clone, Debug)]
pub struct Node {
    pub start: usize,
    pub len: usize,
    /// The smallest range along the node's axis that contains every element of the node;
    /// `None` exactly when the node has no elements.
    pub cont: Option<Range>,
    /// The position of the divider of a non leaf node; `None` for a leaf, and for a
    /// non leaf node whose subtree holds no elements.
    pub div: Option<isize>,
}

/// The number of nodes of a complete binary tree of height `h`.
pub open spec fn num_nodes_of_height(h: nat) -> nat
    decreases h,
{
    if h == 0 {
        0
    } else {
        2 * num_nodes_of_height((h - 1) as nat) + 1
    }
}

/// Holds of the elements whose left border along `axis` is below `d`.
pub open spec fn key_below<T: HasAabb>(axis: Axis, d: isize) -> spec_fn(T) -> bool {
    |b: T| left_key(b, axis) < d
}

/// Holds of the elements whose left border along `axis` is at most `d`.
pub open spec fn key_at_most<T: HasAabb>(axis: Axis, d: isize) -> spec_fn(T) -> bool {
    |b: T| left_key(b, axis) <= d
}

/// Number of elements of `s` whose left border along `axis` is below `d`.
pub open spec fn count_below<T: HasAabb>(s: Seq<T>, axis: Axis, d: isize) -> nat {
    s.filter(key_below(axis, d)).len()
}

/// Number of elements of `s` whose left border along `axis` is at most `d`.
pub open spec fn count_at_most<T: HasAabb>(s: Seq<T>, axis: Axis, d: isize) -> nat {
    s.filter(key_at_most(axis, d)).len()
}

/// `d` is the left border along `axis` of the median element of `s`, the element that
/// would stand at index `s.len() / 2` if `s` were sorted by left border.
pub open spec fn is_median_left<T: HasAabb>(d: isize, s: Seq<T>, axis: Axis) -> bool {
    &&& exists|i: int| 0 <= i < s.len() && #[trigger] left_key(s[i], axis) == d
    &&& count_below(s, axis, d) <= s.len() / 2 < count_at_most(s, axis, d)
}

/// The divider of a non leaf node whose elements (first `mid`, then the elements of the
/// left subtree, then those of the right subtree) are `all`.
pub open spec fn div_ok<T: HasAabb>(
    div: Option<isize>,
    axis: Axis,
    mid: Seq<T>,
    left: Seq<T>,
    right: Seq<T>,
    all: Seq<T>,
) -> bool {
    match div {
        None => all.len() == 0,
        Some(d) => {
            &&& all.len() > 0
            &&& is_median_left(d, all, axis)
            &&& forall|i: int| 0 <= i < mid.len() ==> touches(#[trigger] range_of(mid[i], axis), d)
            &&& forall|i: int| 0 <= i < left.len() ==> left_of(#[trigger] range_of(left[i], axis), d)
            &&& forall|i: int| 0 <= i < right.len() ==> right_of(#[trigger] range_of(right[i], axis), d)
        },
    }
}

/// `nodes` (in preorder) over the elements `bots` form a well formed subtree of height
/// `h` whose first level divides along `axis`. The subtree's elements start at index
/// `base` of the whole tree. When `sorted`, the elements of every node are sorted along
/// the axis after the node's axis.
pub open spec fn wf_subtree<T: HasAabb>(
    axis: Axis,
    h: nat,
    nodes: Seq<Node>,
    bots: Seq<T>,
    base: int,
    sorted: bool,
) -> bool
    decreases h,
{
    if h == 0 {
        false
    } else {
        let n = nodes[0];
        let mid = bots.subrange(0, n.len as int);
        &&& nodes.len() == num_nodes_of_height(h)
        &&& n.start == base
        &&& n.len <= bots.len()
        &&& (sorted ==> sorted_along(mid, axis.spec_next()))
        &&& is_cont_of(n.cont, mid, axis)
        &&& if h == 1 {
            &&& n.len == bots.len()
            &&& n.div is None
        } else {
            let s = num_nodes_of_height((h - 1) as nat) as int;
            let split = nodes[1 + s].start - base;
            &&& n.len <= split <= bots.len()
            &&& div_ok(
                n.div,
                axis,
                mid,
                bots.subrange(n.len as int, split),
                bots.subrange(split, bots.len() as int),
                bots,
            )
            &&& wf_subtree(
                axis.spec_next(),
                (h - 1) as nat,
                nodes.subrange(1, 1 + s),
                bots.subrange(n.len as int, split),
                base + n.len,
                sorted,
            )
            &&& wf_subtree(
                axis.spec_next(),
                (h - 1) as nat,
                nodes.subrange(1 + s, nodes.len() as int),
                bots.subrange(split, bots.len() as int),
                base + split,
                sorted,
            )
        }
    }
}

/// Filtering commutes with taking the multiset of a sequence.
proof fn lemma_filter_to_multiset<T>(s: Seq<T>, p: spec_fn(T) -> bool)
    ensures
        s.filter(p).to_multiset() =~= s.to_multiset().filter(p),
    decreases s.len(),
{
    reveal(Seq::filter);
    if s.len() > 0 {
        let r = s.drop_last();
        lemma_filter_to_multiset(r, p);
        assert(s =~= r.push(s.last()));
        assert(s.to_multiset() =~= r.to_multiset().insert(s.last()));
        if p(s.last()) {
            assert(s.filter(p) == r.filter(p).push(s.last()));
        } else {
            assert(s.filter(p) == r.filter(p));
        }
    } else {
        assert(s.to_multiset() =~= vstd::multiset::Multiset::empty());
    }
}

/// Sequences with the same multiset have as many elements satisfying `p`.
pub proof fn lemma_filter_len_perm<T>(s1: Seq<T>, s2: Seq<T>, p: spec_fn(T) -> bool)
    requires
        s1.to_multiset() == s2.to_multiset(),
    ensures
        s1.filter(p).len() == s2.filter(p).len(),
{
    lemma_filter_to_multiset(s1, p);
    lemma_filter_to_multiset(s2, p);
    s1.filter(p).to_multiset_ensures();
    s2.filter(p).to_multiset_ensures();
}

/// If no element from index `k` on satisfies `p`, at most `k` elements do.
pub(crate) proof fn lemma_filter_len_at_most<T>(s: Seq<T>, p: spec_fn(T) -> bool, k: int)
    requires
        0 <= k,
        forall|i: int| k <= i < s.len() ==> !p(#[trigger] s[i]),
    ensures
        s.filter(p).len() <= k,
    decreases s.len(),
{
    reveal(Seq::filter);
    s.lemma_filter_len(p);
    if s.len() > k {
        let r = s.drop_last();
        lemma_filter_len_at_most(r, p, k);
        assert(!p(s[s.len() - 1]));
    }
}

/// If every element before index `k` satisfies `p`, at least `k` elements do.
pub(crate) proof fn lemma_filter_len_at_least<T>(s: Seq<T>, p: spec_fn(T) -> bool, k: int)
    requires
        0 <= k <= s.len(),
        forall|i: int| 0 <= i < k ==> p(#[trigger] s[i]),
    ensures
        s.filter(p).len() >= k,
    decreases s.len(),
{
    reveal(Seq::filter);
    if s.len() > 0 {
        let r = s.drop_last();
        if s.len() > k {
            lemma_filter_len_at_least(r, p, k);
        } else if k > 0 {
            assert(p(s[s.len() - 1]));
            lemma_filter_len_at_least(r, p, k - 1);
        }
    }
}

/// The median property only depends on the multiset of the elements.
pub proof fn lemma_median_perm<T: HasAabb>(d: isize, s1: Seq<T>, s2: Seq<T>, axis: Axis)
    requires
        s1.to_multiset() == s2.to_multiset(),
        is_median_left(d, s1, axis),
    ensures
        is_median_left(d, s2, axis),
{
    lemma_filter_len_perm(s1, s2, key_below::<T>(axis, d));
    lemma_filter_len_perm(s1, s2, key_at_most::<T>(axis, d));
    s1.to_multiset_ensures();
    s2.to_multiset_ensures();
    let i = choose|i: int| 0 <= i < s1.len() && #[trigger] left_key(s1[i], axis) == d;
    assert(s1.to_multiset().count(s1[i]) > 0);
    assert(s2.to_multiset().count(s1[i]) > 0);
    assert(s2.contains(s1[i]));
    let j = choose|j: int| 0 <= j < s2.len() && s2[j] == s1[i];
    assert(left_key(s2[j], axis) == d);
}

/// The left border along `axis` of the element at index `k` of `s`.
pub open spec fn key_at<T: HasAabb>(s: Seq<T>, k: usize, axis: Axis) -> isize {
    left_key(s[k as int], axis)
}

/// A property of every element carries over to a permutation.
pub proof fn lemma_all_perm<T>(s1: Seq<T>, s2: Seq<T>, p: spec_fn(T) -> bool)
    requires
        s1.to_multiset() == s2.to_multiset(),
        forall|i: int| 0 <= i < s1.len() ==> p(#[trigger] s1[i]),
    ensures
        forall|i: int| 0 <= i < s2.len() ==> p(#[trigger] s2[i]),
{
    assert forall|i: int| 0 <= i < s2.len() implies p(#[trigger] s2[i]) by {
        assert(s2.to_multiset().count(s2[i]) > 0);
        assert(s1.to_multiset().count(s2[i]) > 0);
        assert(s1.contains(s2[i]));
        let j = choose|j: int| 0 <= j < s1.len() && s1[j] == s2[i];
        assert(p(s1[j]));
    }
}

/// The divider of a node stays valid when the elements of its subtrees are permuted.
proof fn lemma_div_ok_perm<T: HasAabb>(
    div: Option<isize>,
    axis: Axis,
    mid: Seq<T>,
    l1: Seq<T>,
    r1: Seq<T>,
    all1: Seq<T>,
    l2: Seq<T>,
    r2: Seq<T>,
    all2: Seq<T>,
)
    requires
        l1.to_multiset() == l2.to_multiset(),
        r1.to_multiset() == r2.to_multiset(),
        all1.to_multiset() == all2.to_multiset(),
        div_ok(div, axis, mid, l1, r1, all1),
    ensures
        div_ok(div, axis, mid, l2, r2, all2),
{
    all1.to_multiset_ensures();
    all2.to_multiset_ensures();
    if let Some(d) = div {
        lemma_median_perm(d, all1, all2, axis);
        let pl = |b: T| left_of(range_of(b, axis), d);
        let pr = |b: T| right_of(range_of(b, axis), d);
        assert forall|i: int| 0 <= i < l1.len() implies pl(#[trigger] l1[i]) by {}
        assert forall|i: int| 0 <= i < r1.len() implies pr(#[trigger] r1[i]) by {}
        lemma_all_perm(l1, l2, pl);
        lemma_all_perm(r1, r2, pr);
        assert forall|i: int| 0 <= i < l2.len() implies left_of(#[trigger] range_of(l2[i], axis), d) by {
            assert(pl(l2[i]));
        }
        assert forall|i: int| 0 <= i < r2.len() implies right_of(#[trigger] range_of(r2[i], axis), d) by {
            assert(pr(r2[i]));
        }
    }
}

/// Assembles a subtree from its root node and its two well formed subtrees.
proof fn lemma_wf_compose<T: HasAabb>(
    axis: Axis,
    h: nat,
    all: Seq<Node>,
    f: Seq<T>,
    base: int,
    sorted: bool,
    m: int,
    l: int,
)
    requires
        h >= 2,
        all.len() == num_nodes_of_height(h),
        all[0].start == base,
        all[0].len == m,
        0 <= m,
        0 <= l,
        m + l <= f.len(),
        sorted ==> sorted_along(f.subrange(0, m), axis.spec_next()),
        is_cont_of(all[0].cont, f.subrange(0, m), axis),
        div_ok(all[0].div, axis, f.subrange(0, m), f.subrange(m, m + l), f.subrange(m + l, f.len() as int), f),
        wf_subtree(
            axis.spec_next(),
            (h - 1) as nat,
            all.subrange(1, 1 + num_nodes_of_height((h - 1) as nat) as int),
            f.subrange(m, m + l),
            base + m,
            sorted,
        ),
        wf_subtree(
            axis.spec_next(),
            (h - 1) as nat,
            all.subrange(1 + num_nodes_of_height((h - 1) as nat) as int, all.len() as int),
            f.subrange(m + l, f.len() as int),
            base + m + l,
            sorted,
        ),
    ensures
        wf_subtree(axis, h, all, f, base, sorted),
{
    let s = num_nodes_of_height((h - 1) as nat) as int;
    assert(all.subrange(1 + s, all.len() as int)[0] == all[1 + s]);
    assert(all[1 + s].start - base == m + l);
}

/// `pdqselect::select_by`: partially sorts `bots` by left border along `axis`, so that
/// the element at index `k` is the one that would stand there if `bots` were sorted.
#[verifier::external_body]
fn select_by_left<T: HasAabb>(axis: Axis, bots: &mut [T], k: usize)
    requires
        k < old(bots)@.len(),
    ensures
        final(bots)@.len() == old(bots)@.len(),
        final(bots)@.to_multiset() == old(bots)@.to_multiset(),
        forall|i: int| 0 <= i < k ==> left_key(#[trigger] final(bots)@[i], axis) <= key_at(final(bots)@, k, axis),
        forall|i: int| k < i < final(bots)@.len() ==> key_at(final(bots)@, k, axis) <= left_key(#[trigger] final(bots)@[i], axis),
{
    pdqselect::select_by(bots, k, |a: &T, b: &T| compare_bots(axis, a, b))
}

/// Sorts the elements of a node along an axis, or leaves them as they are.
pub trait Sorter {
    /// Whether `sort` sorts.
    spec fn sorts() -> bool;

    /// Whether `sort` sorts.
    fn is_sorting(&self) -> (r: bool)
        ensures
            r == Self::sorts(),
    ;

    fn sort<T: HasAabb>(&self, axis: Axis, bots: &mut [T])
        ensures
            final(bots)@.len() == old(bots)@.len(),
            final(bots)@.to_multiset() == old(bots)@.to_multiset(),
            Self::sorts() ==> sorted_along(final(bots)@, axis),
            !Self::sorts() ==> final(bots)@ == old(bots)@,
    ;
}

/// Sorts the elements of a node by their left border.
#[derive(Copy, Clone)]
pub struct DefaultSorter;

impl Sorter for DefaultSorter {
    open spec fn sorts() -> bool {
        true
    }

    fn is_sorting(&self) -> (r: bool) {
        true
    }

    fn sort<T: HasAabb>(&self, axis: Axis, bots: &mut [T]) {
        sweeper_update(axis, bots);
    }
}

/// Leaves the elements of a node in the order binning left them.
#[derive(Copy, Clone)]
pub struct NoSorter;

impl Sorter for NoSorter {
    open spec fn sorts() -> bool {
        false
    }

    fn is_sorting(&self) -> (r: bool) {
        false
    }

    fn sort<T: HasAabb>(&self, axis: Axis, bots: &mut [T]) {
    }
}

/// A trait that gives the user callbacks at events in a recursive algorithm on the tree.
/// The main motivation behind this trait was to track the time spent taken at each level
/// of the tree during construction.
///
/// A splitter that records the callbacks it is told of says so with `obeys_counts`; the
/// construction then states how many callbacks of each kind it makes, and in which order.
pub trait Splitter: Sized {
    /// Whether this splitter counts its callbacks, as the four counts below describe; a
    /// splitter that does not say so is not held to them.
    open spec fn obeys_counts() -> bool {
        false
    }

    /// The number of `node_start` calls this splitter, and the splitters added into it,
    /// were told of.
    open spec fn starts(&self) -> nat {
        0
    }

    /// The number of `node_end` calls this splitter, and the splitters added into it, were
    /// told of.
    open spec fn ends(&self) -> nat {
        0
    }

    /// The number of `div` calls this splitter, and the splitters added into it, were told
    /// of.
    open spec fn divs(&self) -> nat {
        0
    }

    /// The number of `add` calls this splitter, and the splitters added into it, were told
    /// of.
    open spec fn adds(&self) -> nat {
        0
    }

    /// The callbacks this splitter was told of, in order; an `add` is followed by the
    /// callbacks of the splitter that was added.
    open spec fn events(&self) -> Seq<SplitEvent> {
        Seq::empty()
    }

    /// Called to split this into two to be passed to the children.
    fn div(&mut self) -> (r: Self)
        ensures
            Self::obeys_counts() ==> {
                &&& r.starts() == 0 && r.ends() == 0 && r.divs() == 0 && r.adds() == 0
                &&& r.events() == Seq::<SplitEvent>::empty()
                &&& final(self).events() == old(self).events().push(SplitEvent::Div)
                &&& final(self).starts() == old(self).starts()
                &&& final(self).ends() == old(self).ends()
                &&& final(self).divs() == old(self).divs() + 1
                &&& final(self).adds() == old(self).adds()
            },
    ;

    /// Called to add the results of the recursive calls on the children.
    fn add(&mut self, b: Self)
        ensures
            Self::obeys_counts() ==> {
                &&& final(self).starts() == old(self).starts() + b.starts()
                &&& final(self).ends() == old(self).ends() + b.ends()
                &&& final(self).divs() == old(self).divs() + b.divs()
                &&& final(self).adds() == old(self).adds() + b.adds() + 1
                &&& final(self).events() == old(self).events().push(SplitEvent::Add) + b.events()
            },
    ;

    /// Called at the start of the recursive call.
    fn node_start(&mut self)
        ensures
            Self::obeys_counts() ==> {
                &&& final(self).starts() == old(self).starts() + 1
                &&& final(self).events() == old(self).events().push(SplitEvent::NodeStart)
                &&& final(self).ends() == old(self).ends()
                &&& final(self).divs() == old(self).divs()
                &&& final(self).adds() == old(self).adds()
            },
    ;

    /// Called when the recursion reaches a leaf.
    fn node_end(&mut self)
        ensures
            Self::obeys_counts() ==> {
                &&& final(self).starts() == old(self).starts()
                &&& final(self).ends() == old(self).ends() + 1
                &&& final(self).events() == old(self).events().push(SplitEvent::NodeEnd)
                &&& final(self).divs() == old(self).divs()
                &&& final(self).adds() == old(self).adds()
            },
    ;
}

/// A callback of a splitter.
#[derive(Copy, Clone, Debug, PartialEq, Eq, Structural)]
pub enum SplitEvent {
    NodeStart,
    NodeEnd,
    Div,
    Add,
}

/// The callbacks a recording splitter is told of while a subtree of height `h` is built:
/// at a leaf, the start and the end of the node; at a non leaf node, its start, the
/// division, the callbacks of the left subtree, then the addition followed by the
/// callbacks of the right subtree.
pub open spec fn splitter_trace(h: nat) -> Seq<SplitEvent>
    decreases h,
{
    if h == 0 {
        Seq::empty()
    } else if h == 1 {
        seq![SplitEvent::NodeStart, SplitEvent::NodeEnd]
    } else {
        seq![SplitEvent::NodeStart, SplitEvent::Div] + splitter_trace((h - 1) as nat)
            + seq![SplitEvent::Add] + splitter_trace((h - 1) as nat)
    }
}

/// The number of leaves of a complete binary tree of height `h`.
pub open spec fn num_leaves_of_height(h: nat) -> nat
    decreases h,
{
    if h <= 1 {
        h
    } else {
        2 * num_leaves_of_height((h - 1) as nat)
    }
}

/// The number of non leaf nodes of a complete binary tree of height `h`.
pub open spec fn num_inner_of_height(h: nat) -> nat
    decreases h,
{
    if h <= 1 {
        0
    } else {
        2 * num_inner_of_height((h - 1) as nat) + 1
    }
}

/// A complete binary tree of height `h >= 1` has `2^(h-1)` leaves and `2^(h-1) - 1`
/// other nodes.
pub proof fn lemma_leaves_and_inner(h: nat)
    requires
        h >= 1,
    ensures
        num_leaves_of_height(h) == pow2((h - 1) as nat),
        num_inner_of_height(h) == pow2((h - 1) as nat) - 1,
        num_nodes_of_height(h) == num_leaves_of_height(h) + num_inner_of_height(h),
    decreases h,
{
    if h == 1 {
        lemma2_to64();
        assert(num_nodes_of_height(0) == 0);
    } else {
        lemma_leaves_and_inner((h - 1) as nat);
        lemma_pow2_unfold((h - 1) as nat);
    }
}

/// A splitter that builds a subtree of height `h` over `old` ends as `new`: one
/// `node_start` per node, one `node_end` per leaf, and one `div` and one `add` per non
/// leaf node, in the order `splitter_trace` gives.
pub open spec fn splitter_told<K: Splitter>(old: K, new: K, h: nat) -> bool {
    K::obeys_counts() ==> {
        &&& new.starts() == old.starts() + num_nodes_of_height(h)
        &&& new.ends() == old.ends() + num_leaves_of_height(h)
        &&& new.divs() == old.divs() + num_inner_of_height(h)
        &&& new.adds() == old.adds() + num_inner_of_height(h)
        &&& new.events() == old.events() + splitter_trace(h)
    }
}

/// For cases where you don't care about any of the callbacks that Splitter provides, this
/// implements them all to do nothing.
pub struct SplitterEmpty;

impl Splitter for SplitterEmpty {
    fn div(&mut self) -> Self {
        SplitterEmpty
    }

    fn add(&mut self, b: Self) {
    }

    fn node_start(&mut self) {
    }

    fn node_end(&mut self) {
    }
}

/// Some alternate strategies for rebalancing, used to empirically show that the default
/// (the first one) is a good default.
#[derive(Copy, Clone, Debug)]
pub enum RebalStrat {
    First,
    Second,
    Third,
}

/// The strategy used to bin the elements of a node around its divider. Both strategies
/// bin the same way.
#[derive(Copy, Clone, Debug)]
pub enum BinStrat {
    Checked,
    NotChecked,
}


/// The outcome of dividing the elements of a non leaf node.
enum ConstructResult {
    /// The divider, the bounding range of the node's own elements, and the numbers of
    /// elements of the node and of its left subtree.
    NonEmpty { div: isize, cont: Option<Range>, mid: usize, left: usize },
    /// There were no elements.
    Empty,
}

/// Divides `bots` at the median of the left borders along `div_axis`: the elements that
/// touch the divider come first (sorted along the next axis when the sorter sorts), then
/// those left of it, then those right of it.
#[verifier::spinoff_prover]
fn construct_non_leaf<T: HasAabb, S: Sorter>(
    bin_strat: BinStrat,
    sorter: &S,
    div_axis: Axis,
    bots: &mut [T],
) -> (r: ConstructResult)
    ensures
        final(bots)@.len() == old(bots)@.len(),
        final(bots)@.to_multiset() == old(bots)@.to_multiset(),
        match r {
            ConstructResult::Empty => old(bots)@.len() == 0,
            ConstructResult::NonEmpty { div, cont, mid, left } => {
                let f = final(bots)@;
                &&& mid + left <= f.len()
                &&& div_ok(
                    Some(div),
                    div_axis,
                    f.subrange(0, mid as int),
                    f.subrange(mid as int, mid + left),
                    f.subrange(mid + left, f.len() as int),
                    f,
                )
                &&& is_cont_of(cont, f.subrange(0, mid as int), div_axis)
                &&& (S::sorts() ==> sorted_along(f.subrange(0, mid as int), div_axis.spec_next()))
            },
        },
{
    if bots.len() == 0 {
        return ConstructResult::Empty;
    }
    let mm = bots.len() / 2;
    select_by_left(div_axis, bots, mm);
    let med = bots[mm].get().get_range(div_axis).left;
    proof {
        let s = bots@;
        lemma_filter_len_at_most(s, key_below::<T>(div_axis, med), mm as int);
        lemma_filter_len_at_least(s, key_at_most::<T>(div_axis, med), mm + 1);
        assert(left_key(s[mm as int], div_axis) == med);
        assert(is_median_left(med, s, div_axis));
    }
    let ghost selected = bots@;
    // Both strategies bin the same way; the unchecked one only skips bounds checks.
    let (mid, left_end) = match bin_strat {
        BinStrat::Checked => bin_in_place(div_axis, med, bots),
        BinStrat::NotChecked => bin_in_place(div_axis, med, bots),
    };
    let ghost binned = bots@;
    let ghost sorted_mid: Seq<T>;
    {
        let (middle, _rest) = bots.split_at_mut(mid);
        sorter.sort(div_axis.next(), middle);
        proof { sorted_mid = middle@; }
    }
    let ghost f = bots@;
    proof {
        assert(f =~= sorted_mid + binned.subrange(mid as int, binned.len() as int));
        assert(f.subrange(0, mid as int) =~= sorted_mid);
        assert(binned =~= binned.subrange(0, mid as int) + binned.subrange(mid as int, binned.len() as int));
        assert(f =~= f.subrange(0, mid as int) + f.subrange(mid as int, f.len() as int));
        assert(f.subrange(mid as int, f.len() as int) == binned.subrange(mid as int, binned.len() as int));
        vstd::seq_lib::lemma_multiset_commutative(f.subrange(0, mid as int), f.subrange(mid as int, f.len() as int));
        vstd::seq_lib::lemma_multiset_commutative(binned.subrange(0, mid as int), binned.subrange(mid as int, binned.len() as int));
        assert(f.to_multiset() == selected.to_multiset());
        lemma_median_perm(med, selected, f, div_axis);
        assert forall|i: int| 0 <= i < mid implies touches(#[trigger] range_of(f.subrange(0, mid as int)[i], div_axis), med) by {
            let x = f.subrange(0, mid as int)[i];
            assert(f.subrange(0, mid as int).to_multiset().count(x) > 0);
            let xs = binned.subrange(0, mid as int);
            assert(xs.to_multiset().contains(x));
            assert(xs.contains(x));
            let j = choose|j: int| 0 <= j < xs.len() && xs[j] == x;
            assert(binned[j] == x);
        }
    }
    let cont = create_cont(div_axis, vstd::slice::slice_subrange(bots, 0, mid));
    ConstructResult::NonEmpty { div: med, cont, mid, left: left_end - mid }
}


/// Builds a leaf node from `rest`, whose elements start at index `base` of the tree.
fn create_leaf<T: HasAabb, S: Sorter>(sorter: &S, axis: Axis, rest: &mut [T], base: usize) -> (r: Node)
    ensures
        final(rest)@.len() == old(rest)@.len(),
        final(rest)@.to_multiset() == old(rest)@.to_multiset(),
        r.start == base,
        r.len == final(rest)@.len(),
        r.div is None,
        is_cont_of(r.cont, final(rest)@, axis),
        S::sorts() ==> sorted_along(final(rest)@, axis.spec_next()),
{
    sorter.sort(axis.next(), rest);
    let cont = create_cont(axis, rest);
    Node { start: base, len: rest.len(), cont, div: None }
}

/// Builds a non leaf node from `rest`, whose elements start at index `base` of the tree.
/// Returns the node and the numbers of elements of the node and of its left subtree.
fn create_non_leaf<T: HasAabb, S: Sorter>(
    bin_strat: BinStrat,
    sorter: &S,
    axis: Axis,
    rest: &mut [T],
    base: usize,
) -> (r: (Node, usize, usize))
    ensures
        final(rest)@.len() == old(rest)@.len(),
        final(rest)@.to_multiset() == old(rest)@.to_multiset(),
        ({
            let (n, mid, left) = r;
            let f = final(rest)@;
            &&& n.start == base
            &&& n.len == mid
            &&& mid + left <= f.len()
            &&& div_ok(
                n.div,
                axis,
                f.subrange(0, mid as int),
                f.subrange(mid as int, mid + left),
                f.subrange(mid + left, f.len() as int),
                f,
            )
            &&& is_cont_of(n.cont, f.subrange(0, mid as int), axis)
            &&& (S::sorts() ==> sorted_along(f.subrange(0, mid as int), axis.spec_next()))
        }),
{
    match construct_non_leaf(bin_strat, sorter, axis, rest) {
        ConstructResult::NonEmpty { div, cont, mid, left } => {
            (Node { start: base, len: mid, cont, div: Some(div) }, mid, left)
        },
        ConstructResult::Empty => {
            proof {
                assert(rest@.subrange(0, 0) =~= Seq::<T>::empty());
            }
            (Node { start: base, len: 0, cont: None, div: None }, 0, 0)
        },
    }
}

/// Assembles the subtree built below a node from the node, the nodes and elements of its
/// two subtrees, and the elements of the node itself.
proof fn lemma_combine<T: HasAabb>(
    axis: Axis,
    h: nat,
    base: int,
    sorted: bool,
    node: Node,
    m: int,
    l: int,
    nodes0: Seq<Node>,
    nodes1: Seq<Node>,
    nodes2: Seq<Node>,
    right_nodes: Seq<Node>,
    final_nodes: Seq<Node>,
    whole: Seq<T>,
    left_final: Seq<T>,
    right_final: Seq<T>,
    f: Seq<T>,
)
    requires
        h >= 2,
        nodes1 == nodes0.push(node),
        nodes2.len() == nodes1.len() + num_nodes_of_height((h - 1) as nat),
        nodes2.subrange(0, nodes1.len() as int) == nodes1,
        wf_subtree(axis.spec_next(), (h - 1) as nat, nodes2.subrange(nodes1.len() as int, nodes2.len() as int), left_final, base + m, sorted),
        right_nodes.len() == num_nodes_of_height((h - 1) as nat),
        wf_subtree(axis.spec_next(), (h - 1) as nat, right_nodes, right_final, base + m + l, sorted),
        final_nodes == nodes2 + right_nodes,
        node.start == base,
        node.len == m,
        0 <= m,
        0 <= l,
        m + l <= whole.len(),
        div_ok(node.div, axis, whole.subrange(0, m), whole.subrange(m, m + l), whole.subrange(m + l, whole.len() as int), whole),
        is_cont_of(node.cont, whole.subrange(0, m), axis),
        sorted ==> sorted_along(whole.subrange(0, m), axis.spec_next()),
        left_final.len() == l,
        right_final.len() == whole.len() - m - l,
        left_final.to_multiset() == whole.subrange(m, m + l).to_multiset(),
        right_final.to_multiset() == whole.subrange(m + l, whole.len() as int).to_multiset(),
        f == whole.subrange(0, m) + left_final + right_final,
    ensures
        f.len() == whole.len(),
        f.to_multiset() == whole.to_multiset(),
        final_nodes.len() == nodes0.len() + num_nodes_of_height(h),
        final_nodes.subrange(0, nodes0.len() as int) == nodes0,
        wf_subtree(axis, h, final_nodes.subrange(nodes0.len() as int, final_nodes.len() as int), f, base, sorted),
{
    let mid_s = whole.subrange(0, m);
    assert(f.subrange(0, m) =~= mid_s);
    assert(f.subrange(m, m + l) =~= left_final);
    assert(f.subrange(m + l, f.len() as int) =~= right_final);
    assert(whole =~= mid_s + whole.subrange(m, m + l) + whole.subrange(m + l, whole.len() as int));
    vstd::seq_lib::lemma_multiset_commutative(mid_s + left_final, right_final);
    vstd::seq_lib::lemma_multiset_commutative(mid_s, left_final);
    vstd::seq_lib::lemma_multiset_commutative(mid_s + whole.subrange(m, m + l), whole.subrange(m + l, whole.len() as int));
    vstd::seq_lib::lemma_multiset_commutative(mid_s, whole.subrange(m, m + l));
    assert(f.to_multiset() == whole.to_multiset());
    let all = final_nodes.subrange(nodes0.len() as int, final_nodes.len() as int);
    let s = num_nodes_of_height((h - 1) as nat) as int;
    assert(num_nodes_of_height(h) == 2 * num_nodes_of_height((h - 1) as nat) + 1);
    assert(final_nodes[nodes0.len() as int] == nodes2[nodes0.len() as int]);
    assert(nodes2.subrange(0, nodes1.len() as int)[nodes0.len() as int] == nodes2[nodes0.len() as int]);
    assert(nodes1[nodes0.len() as int] == node);
    assert(all[0] == node);
    assert(all.subrange(1, 1 + s) =~= nodes2.subrange(nodes1.len() as int, nodes2.len() as int));
    assert(all.subrange(1 + s, all.len() as int) =~= right_nodes);
    assert forall|i: int| 0 <= i < nodes0.len() implies final_nodes.subrange(0, nodes0.len() as int)[i] == nodes0[i] by {
        assert(nodes2.subrange(0, nodes1.len() as int)[i] == nodes2[i]);
    }
    assert(final_nodes.subrange(0, nodes0.len() as int) =~= nodes0);
    lemma_div_ok_perm(
        node.div,
        axis,
        mid_s,
        whole.subrange(m, m + l),
        whole.subrange(m + l, whole.len() as int),
        whole,
        left_final,
        right_final,
        f,
    );
    lemma_wf_compose(axis, h, all, f, base, sorted, m, l);
}

/// Builds, in preorder, the nodes of the subtree of height `height - depth` over `rest`,
/// whose elements start at index `base` of the tree, and permutes `rest` into the order
/// of the nodes.
#[verifier::spinoff_prover]
fn recurse_preorder_seq<T: HasAabb, S: Sorter, K: Splitter>(
    height: usize,
    binstrat: BinStrat,
    sorter: &S,
    axis: Axis,
    rest: &mut [T],
    base: usize,
    nodes: &mut Vec<Node>,
    splitter: &mut K,
    depth: usize,
)
    requires
        depth < height,
        base + old(rest)@.len() <= usize::MAX,
    ensures
        final(rest)@.len() == old(rest)@.len(),
        final(rest)@.to_multiset() == old(rest)@.to_multiset(),
        final(nodes)@.len() == old(nodes)@.len() + num_nodes_of_height((height - depth) as nat),
        final(nodes)@.subrange(0, old(nodes)@.len() as int) == old(nodes)@,
        wf_subtree(
            axis,
            (height - depth) as nat,
            final(nodes)@.subrange(old(nodes)@.len() as int, final(nodes)@.len() as int),
            final(rest)@,
            base as int,
            S::sorts(),
        ),
        splitter_told(*old(splitter), *final(splitter), (height - depth) as nat),
    decreases height - depth,
{
    let ghost nodes0 = nodes@;
    let ghost h = (height - depth) as nat;
    let ghost e0 = splitter.events();
    splitter.node_start();
    if depth < height - 1 {
        let (node, mid_len, left_len) = create_non_leaf(binstrat, sorter, axis, rest, base);
        let ghost whole = rest@;
        nodes.push(node);
        let mut splitter2 = splitter.div();
        let ghost nodes1 = nodes@;
        let ghost left_final: Seq<T>;
        let ghost right_final: Seq<T>;
        let ghost nodes2: Seq<Node>;
        let ghost right_nodes: Seq<Node>;
        {
            let (mid, rest2) = rest.split_at_mut(mid_len);
            let (left, right) = rest2.split_at_mut(left_len);
            proof {
                assert(left@ =~= whole.subrange(mid_len as int, mid_len + left_len));
                assert(right@ =~= whole.subrange(mid_len + left_len, whole.len() as int));
            }
            recurse_preorder_seq(height, binstrat, sorter, axis.next(), left, base + mid_len, nodes, splitter, depth + 1);
            proof {
                left_final = left@;
                nodes2 = nodes@;
            }
            recurse_preorder_seq(
                height,
                binstrat,
                sorter,
                axis.next(),
                right,
                base + mid_len + left_len,
                nodes,
                &mut splitter2,
                depth + 1,
            );
            proof {
                right_final = right@;
                right_nodes = nodes@.subrange(nodes2.len() as int, nodes@.len() as int);
            }
        }
        let ghost e_left = splitter.events();
        let ghost e_right = splitter2.events();
        splitter.add(splitter2);
        proof {
            if K::obeys_counts() {
                let t = splitter_trace((h - 1) as nat);
                assert(e_left == e0.push(SplitEvent::NodeStart).push(SplitEvent::Div) + t);
                assert(e_right =~= Seq::<SplitEvent>::empty() + t);
                assert(splitter.events() == e_left.push(SplitEvent::Add) + e_right);
                assert(splitter_trace(h) == seq![SplitEvent::NodeStart, SplitEvent::Div] + t + seq![SplitEvent::Add] + t);
                assert(splitter.events() =~= e0 + splitter_trace(h));
            }
        }
        proof {
            let f = rest@;
            let m = mid_len as int;
            let l = left_len as int;
            assert(f =~= whole.subrange(0, m) + left_final + right_final);
            assert(nodes1 =~= nodes0.push(node));
            assert(nodes@ =~= nodes2 + right_nodes);
            lemma_combine(axis, h, base as int, S::sorts(), node, m, l, nodes0, nodes1, nodes2, right_nodes, nodes@, whole, left_final, right_final, f);
        }
    } else {
        let node = create_leaf(sorter, axis, rest, base);
        nodes.push(node);
        splitter.node_end();
        proof {
            if K::obeys_counts() {
                assert(splitter.events() =~= e0 + splitter_trace(h));
            }
            let all = nodes@.subrange(nodes0.len() as int, nodes@.len() as int);
            assert(num_nodes_of_height(h) == 1) by {
                assert(num_nodes_of_height(0) == 0);
            }
            assert(all[0] == node);
            assert(rest@.subrange(0, node.len as int) =~= rest@);
            assert(nodes@.subrange(0, nodes0.len() as int) =~= nodes0);
        }
    }
}


/// Number of times `num_bots` has to be divided by four (rounding up) to fall to at most
/// `per_node`.
pub open spec fn quarterings(num_bots: nat, per_node: nat) -> nat
    decreases num_bots,
{
    if per_node == 0 || num_bots <= per_node {
        0
    } else {
        1 + quarterings(((num_bots + 3) / 4) as nat, per_node)
    }
}

/// Four to the power `k`.
pub open spec fn pow4(k: nat) -> nat
    decreases k,
{
    if k == 0 {
        1
    } else {
        4 * pow4((k - 1) as nat)
    }
}

/// The height chosen for `num_bots` elements with about `per_node` elements per node.
pub open spec fn spec_height_heuristic(num_bots: nat, per_node: nat) -> nat {
    if num_bots <= per_node {
        1
    } else {
        2 * quarterings(num_bots, per_node) + 1
    }
}

/// `quarterings` is the least `k` such that `per_node * 4^k >= num_bots`.
pub proof fn lemma_quarterings_least(num_bots: nat, per_node: nat)
    requires
        per_node > 0,
    ensures
        per_node * pow4(quarterings(num_bots, per_node)) >= num_bots,
        quarterings(num_bots, per_node) > 0 ==> per_node * pow4((quarterings(num_bots, per_node) - 1) as nat) < num_bots,
    decreases num_bots,
{
    if num_bots > per_node {
        let m = ((num_bots + 3) / 4) as nat;
        assert(4 * m >= num_bots && 4 * m <= num_bots + 3) by (nonlinear_arith)
            requires m == (num_bots + 3) / 4;
        lemma_quarterings_least(m, per_node);
        let k = quarterings(m, per_node);
        assert(quarterings(num_bots, per_node) == 1 + k);
        assert(pow4(k + 1) == 4 * pow4(k));
        assert(per_node * pow4(k + 1) == 4 * (per_node * pow4(k))) by (nonlinear_arith)
            requires pow4(k + 1) == 4 * pow4(k);
        assert(per_node * pow4(k + 1) >= num_bots);
        assert(quarterings(num_bots, per_node) == k + 1);
        if k > 0 {
            assert(pow4(k) == 4 * pow4((k - 1) as nat));
            assert(per_node * pow4(k) == 4 * (per_node * pow4((k - 1) as nat))) by (nonlinear_arith)
                requires pow4(k) == 4 * pow4((k - 1) as nat);
            assert(per_node * pow4(k) < num_bots);
        } else {
            assert(pow4(0) == 1);
            assert(m <= per_node);
            assert(pow4(k) == 1);
            assert(per_node * pow4(k) == per_node) by (nonlinear_arith)
                requires pow4(k) == 1;
        }
    } else {
        assert(pow4(0) == 1);
        assert(quarterings(num_bots, per_node) == 0);
        assert(per_node * pow4(0) == per_node) by (nonlinear_arith)
            requires pow4(0) == 1;
    }
}

/// Outputs the height given a desired number of bots per node: the least odd height
/// `2k + 1` such that `num_per_node * 4^k >= num_bots`, and 1 when
/// `num_bots <= num_per_node`.
pub fn compute_tree_height_heuristic_debug(num_bots: usize, num_per_node: usize) -> (r: usize)
    requires
        num_per_node > 0 || num_bots == 0,
    ensures
        r == spec_height_heuristic(num_bots as nat, num_per_node as nat),
        r >= 1,
{
    if num_bots <= num_per_node {
        1
    } else {
        let mut m = num_bots;
        let mut k: usize = 0;
        proof { lemma2_to64(); }
        while m > num_per_node
            invariant
                num_per_node > 0,
                1 <= m <= num_bots,
                k <= 64,
                m * pow2(k as nat) <= num_bots,
                k + quarterings(m as nat, num_per_node as nat) == quarterings(num_bots as nat, num_per_node as nat),
            decreases m,
        {
            let q = if m % 4 == 0 { m / 4 } else { m / 4 + 1 };
            assert(q == (m + 3) / 4);
            assert(2 * q <= m);
            proof {
                lemma_pow2_unfold((k + 1) as nat);
                let p = pow2(k as nat);
                assert(q * pow2((k + 1) as nat) <= m * p) by (nonlinear_arith)
                    requires 2 * q <= m, pow2((k + 1) as nat) == 2 * p;
                if k == 64 {
                    lemma2_to64();
                    lemma_pow2_pos(0);
                    assert(m * p >= p) by (nonlinear_arith) requires m >= 1, p > 0;
                    assert(p == 0x10000000000000000);
                }
            }
            m = q;
            k += 1;
        }
        2 * k + 1
    }
}

/// Returns the height of a tree for a given number of bots. The height is chosen such that
/// the nodes will each have a small amount of bots: about 128.
pub fn compute_tree_height_heuristic(num_bots: usize) -> (r: usize)
    ensures
        r == spec_height_heuristic(num_bots as nat, 128),
        r >= 1,
{
    compute_tree_height_heuristic_debug(num_bots, 128)
}

/// Returns the height at which the recursive construction algorithm turns to sequential
/// from parallel.
pub fn default_level_switch_sequential() -> (r: usize)
    ensures
        r == 6,
{
    6
}

/// Returns the depth at which the recursive construction algorithm turns to sequential
/// from parallel: `height - depth`, or 0 when `height <= depth`.
pub fn compute_default_level_switch_sequential(depth: usize, height: usize) -> (r: Parallel)
    ensures
        (r.0).0 == if height <= depth { 0 } else { height - depth },
{
    let gg = if height <= depth { 0 } else { height - depth };
    Parallel::new(Depth(gg))
}


/// The capacity reserved for the nodes below `depth` in a tree of height `height`:
/// `2.rotate_left(height - depth) - 1`.
fn nodes_left(depth: usize, height: usize) -> (r: usize)
    requires
        depth <= height,
    ensures
        r == pow2((((height - depth) as nat % (usize::BITS as nat)) + 1) % (usize::BITS as nat)) - 1,
{
    let levels = height - depth;
    let bits = usize::BITS as usize;
    let shift = (levels % bits + 1) % bits;
    proof {
        lemma_usize_pow2_no_overflow(shift as nat);
        lemma_usize_shl_is_mul(1, shift);
    }
    (1usize << shift) - 1
}

/// Builds the nodes, in preorder, of a tree of height `height` over `rest`, permuting
/// `rest` into the order of the nodes.
pub fn create_tree_seq<T: HasAabb, S: Sorter, K: Splitter>(
    div_axis: Axis,
    rest: &mut [T],
    sorter: S,
    splitter: &mut K,
    height: usize,
    binstrat: BinStrat,
) -> (r: Vec<Node>)
    requires
        height >= 1,
    ensures
        final(rest)@.to_multiset() == old(rest)@.to_multiset(),
        wf_subtree(div_axis, height as nat, r@, final(rest)@, 0, S::sorts()),
        splitter_told(*old(splitter), *final(splitter), height as nat),
{
    let mut nodes: Vec<Node> = Vec::with_capacity(nodes_left(0, height));
    let n = rest.len();
    assert(n == rest@.len());
    recurse_preorder_seq(height, binstrat, &sorter, div_axis, rest, 0, &mut nodes, splitter, 0);
    proof {
        assert(nodes@.subrange(0, nodes@.len() as int) =~= nodes@);
    }
    nodes
}

/// `rayon::join`: builds the left and the right subtree below a node at the same time;
/// returns the nodes of the right subtree, while those of the left one are pushed onto
/// `nodes`.
#[verifier::external_body]
fn join_subtrees<T: HasAabb + Send + Sync, S: Sorter + Sync, K: Splitter + Send + Sync, JJ: Joiner>(
    height: usize,
    binstrat: BinStrat,
    sorter: &S,
    axis: Axis,
    left: &mut [T],
    left_base: usize,
    dleft: JJ,
    nodes: &mut Vec<Node>,
    splitter: &mut K,
    right: &mut [T],
    right_base: usize,
    dright: JJ,
    splitter2: &mut K,
    depth: usize,
) -> (r: Vec<Node>)
    requires
        depth < height,
        left_base + old(left)@.len() <= usize::MAX,
        right_base + old(right)@.len() <= usize::MAX,
    ensures
        final(left)@.len() == old(left)@.len(),
        final(left)@.to_multiset() == old(left)@.to_multiset(),
        final(nodes)@.len() == old(nodes)@.len() + num_nodes_of_height((height - depth) as nat),
        final(nodes)@.subrange(0, old(nodes)@.len() as int) == old(nodes)@,
        wf_subtree(
            axis,
            (height - depth) as nat,
            final(nodes)@.subrange(old(nodes)@.len() as int, final(nodes)@.len() as int),
            final(left)@,
            left_base as int,
            S::sorts(),
        ),
        final(right)@.len() == old(right)@.len(),
        final(right)@.to_multiset() == old(right)@.to_multiset(),
        wf_subtree(axis, (height - depth) as nat, r@, final(right)@, right_base as int, S::sorts()),
        splitter_told(*old(splitter), *final(splitter), (height - depth) as nat),
        splitter_told(*old(splitter2), *final(splitter2), (height - depth) as nat),
{
    rayon::join(
        || recurse_preorder(height, binstrat, sorter, axis, left, left_base, dleft, nodes, splitter, depth),
        || recurse_into_new(height, binstrat, sorter, axis, right, right_base, dright, splitter2, depth),
    ).1
}

/// Builds, into a new vector, the nodes of the subtree of height `height - depth` over
/// `rest`, possibly in parallel.
fn recurse_into_new<T: HasAabb + Send + Sync, S: Sorter + Sync, K: Splitter + Send + Sync, JJ: Joiner>(
    height: usize,
    binstrat: BinStrat,
    sorter: &S,
    axis: Axis,
    rest: &mut [T],
    base: usize,
    dlevel: JJ,
    splitter: &mut K,
    depth: usize,
) -> (r: Vec<Node>)
    requires
        depth < height,
        base + old(rest)@.len() <= usize::MAX,
    ensures
        final(rest)@.len() == old(rest)@.len(),
        final(rest)@.to_multiset() == old(rest)@.to_multiset(),
        wf_subtree(axis, (height - depth) as nat, r@, final(rest)@, base as int, S::sorts()),
        splitter_told(*old(splitter), *final(splitter), (height - depth) as nat),
{
    let mut nodes: Vec<Node> = Vec::with_capacity(nodes_left(depth, height));
    recurse_preorder(height, binstrat, sorter, axis, rest, base, dlevel, &mut nodes, splitter, depth);
    proof {
        assert(nodes@.subrange(0, nodes@.len() as int) =~= nodes@);
    }
    nodes
}

/// Builds the two subtrees below a node at `depth`, over `left` and over `right`, in
/// parallel when `dlevel` says so: the nodes of the left subtree, then those of the right
/// one, are pushed onto `nodes`.
fn build_children<T: HasAabb + Send + Sync, S: Sorter + Sync, K: Splitter + Send + Sync, JJ: Joiner>(
    height: usize,
    binstrat: BinStrat,
    sorter: &S,
    axis: Axis,
    left: &mut [T],
    left_base: usize,
    right: &mut [T],
    right_base: usize,
    dlevel: JJ,
    nodes: &mut Vec<Node>,
    splitter: &mut K,
    splitter2: &mut K,
    depth: usize,
)
    requires
        depth + 1 < height,
        left_base + old(left)@.len() <= usize::MAX,
        right_base + old(right)@.len() <= usize::MAX,
    ensures
        ({
            let n0 = old(nodes)@.len() as int;
            let c = num_nodes_of_height((height - depth - 1) as nat) as int;
            &&& final(nodes)@.len() == n0 + 2 * c
            &&& final(nodes)@.subrange(0, n0) == old(nodes)@
            &&& wf_subtree(axis, (height - depth - 1) as nat, final(nodes)@.subrange(n0, n0 + c), final(left)@, left_base as int, S::sorts())
            &&& wf_subtree(axis, (height - depth - 1) as nat, final(nodes)@.subrange(n0 + c, n0 + 2 * c), final(right)@, right_base as int, S::sorts())
        }),
        final(left)@.len() == old(left)@.len(),
        final(left)@.to_multiset() == old(left)@.to_multiset(),
        final(right)@.len() == old(right)@.len(),
        final(right)@.to_multiset() == old(right)@.to_multiset(),
        splitter_told(*old(splitter), *final(splitter), (height - depth - 1) as nat),
        splitter_told(*old(splitter2), *final(splitter2), (height - depth - 1) as nat),
{
    let ghost n0 = nodes@.len() as int;
    let ghost c = num_nodes_of_height((height - depth - 1) as nat) as int;
    match dlevel.next(Depth(depth)) {
        ParResult::Parallel(children) => {
            let dleft = children[0];
            let dright = children[1];
            let mut nodes_right = join_subtrees(
                height,
                binstrat,
                sorter,
                axis,
                left,
                left_base,
                dleft,
                nodes,
                splitter,
                right,
                right_base,
                dright,
                splitter2,
                depth + 1,
            );
            let ghost nodes2 = nodes@;
            let ghost rn = nodes_right@;
            nodes.append(&mut nodes_right);
            proof {
                assert(nodes@ =~= nodes2 + rn);
                assert(nodes@.subrange(0, n0) =~= nodes2.subrange(0, n0));
                assert(nodes@.subrange(n0, n0 + c) =~= nodes2.subrange(n0, nodes2.len() as int));
                assert(nodes@.subrange(n0 + c, n0 + 2 * c) =~= rn);
            }
        },
        ParResult::Sequential(_) => {
            recurse_preorder_seq(height, binstrat, sorter, axis, left, left_base, nodes, splitter, depth + 1);
            let ghost nodes2 = nodes@;
            recurse_preorder_seq(height, binstrat, sorter, axis, right, right_base, nodes, splitter2, depth + 1);
            proof {
                assert(nodes@.subrange(0, n0) =~= nodes2.subrange(0, n0));
                assert(nodes@.subrange(n0, n0 + c) =~= nodes2.subrange(n0, nodes2.len() as int));
            }
        },
    }
}

/// Builds, in preorder, the nodes of the subtree of height `height - depth` over `rest`;
/// the two subtrees below a node are built in parallel while `dlevel` says so.
#[verifier::spinoff_prover]
fn recurse_preorder<T: HasAabb + Send + Sync, S: Sorter + Sync, K: Splitter + Send + Sync, JJ: Joiner>(
    height: usize,
    binstrat: BinStrat,
    sorter: &S,
    axis: Axis,
    rest: &mut [T],
    base: usize,
    dlevel: JJ,
    nodes: &mut Vec<Node>,
    splitter: &mut K,
    depth: usize,
)
    requires
        depth < height,
        base + old(rest)@.len() <= usize::MAX,
    ensures
        final(rest)@.len() == old(rest)@.len(),
        final(rest)@.to_multiset() == old(rest)@.to_multiset(),
        final(nodes)@.len() == old(nodes)@.len() + num_nodes_of_height((height - depth) as nat),
        final(nodes)@.subrange(0, old(nodes)@.len() as int) == old(nodes)@,
        wf_subtree(
            axis,
            (height - depth) as nat,
            final(nodes)@.subrange(old(nodes)@.len() as int, final(nodes)@.len() as int),
            final(rest)@,
            base as int,
            S::sorts(),
        ),
        splitter_told(*old(splitter), *final(splitter), (height - depth) as nat),
{
    let ghost nodes0 = nodes@;
    let ghost h = (height - depth) as nat;
    let ghost e0 = splitter.events();
    splitter.node_start();
    if depth < height - 1 {
        let (node, mid_len, left_len) = create_non_leaf(binstrat, sorter, axis, rest, base);
        let ghost whole = rest@;
        nodes.push(node);
        let mut splitter2 = splitter.div();
        let ghost nodes1 = nodes@;
        let ghost left_final: Seq<T>;
        let ghost right_final: Seq<T>;
        let ghost nodes2: Seq<Node>;
        let ghost right_nodes: Seq<Node>;
        {
            let (mid, rest2) = rest.split_at_mut(mid_len);
            let (left, right) = rest2.split_at_mut(left_len);
            proof {
                assert(left@ =~= whole.subrange(mid_len as int, mid_len + left_len));
                assert(right@ =~= whole.subrange(mid_len + left_len, whole.len() as int));
            }
            let ghost n1 = nodes@.len() as int;
            let ghost c = num_nodes_of_height((height - depth - 1) as nat) as int;
            build_children(
                height,
                binstrat,
                sorter,
                axis.next(),
                left,
                base + mid_len,
                right,
                base + mid_len + left_len,
                dlevel,
                nodes,
                splitter,
                &mut splitter2,
                depth,
            );
            proof {
                left_final = left@;
                right_final = right@;
                nodes2 = nodes@.subrange(0, n1 + c);
                right_nodes = nodes@.subrange(n1 + c, nodes@.len() as int);
                assert(nodes2.subrange(0, n1) =~= nodes@.subrange(0, n1));
                assert(nodes2.subrange(n1, nodes2.len() as int) =~= nodes@.subrange(n1, n1 + c));
            }
        }
        let ghost e_left = splitter.events();
        let ghost e_right = splitter2.events();
        splitter.add(splitter2);
        proof {
            if K::obeys_counts() {
                let t = splitter_trace((h - 1) as nat);
                assert(e_left == e0.push(SplitEvent::NodeStart).push(SplitEvent::Div) + t);
                assert(e_right =~= Seq::<SplitEvent>::empty() + t);
                assert(splitter.events() == e_left.push(SplitEvent::Add) + e_right);
                assert(splitter_trace(h) == seq![SplitEvent::NodeStart, SplitEvent::Div] + t + seq![SplitEvent::Add] + t);
                assert(splitter.events() =~= e0 + splitter_trace(h));
            }
        }
        proof {
            let f = rest@;
            let m = mid_len as int;
            let l = left_len as int;
            assert(f =~= whole.subrange(0, m) + left_final + right_final);
            assert(nodes1 =~= nodes0.push(node));
            assert(nodes@ =~= nodes2 + right_nodes);
            lemma_combine(axis, h, base as int, S::sorts(), node, m, l, nodes0, nodes1, nodes2, right_nodes, nodes@, whole, left_final, right_final, f);
        }
    } else {
        let node = create_leaf(sorter, axis, rest, base);
        nodes.push(node);
        splitter.node_end();
        proof {
            if K::obeys_counts() {
                assert(splitter.events() =~= e0 + splitter_trace(h));
            }
            let all = nodes@.subrange(nodes0.len() as int, nodes@.len() as int);
            assert(num_nodes_of_height(h) == 1) by {
                assert(num_nodes_of_height(0) == 0);
            }
            assert(all[0] == node);
            assert(rest@.subrange(0, node.len as int) =~= rest@);
            assert(nodes@.subrange(0, nodes0.len() as int) =~= nodes0);
        }
    }
}

/// Builds the nodes, in preorder, of a tree of height `height` over `rest`, permuting
/// `rest` into the order of the nodes; the subtrees below the nodes above depth
/// `dlevel` are built in parallel.
pub fn create_tree_par<T: HasAabb + Send + Sync, JJ: Joiner, S: Sorter + Sync, K: Splitter + Send + Sync>(
    div_axis: Axis,
    dlevel: JJ,
    rest: &mut [T],
    sorter: S,
    splitter: &mut K,
    height: usize,
    binstrat: BinStrat,
) -> (r: Vec<Node>)
    requires
        height >= 1,
    ensures
        final(rest)@.to_multiset() == old(rest)@.to_multiset(),
        wf_subtree(div_axis, height as nat, r@, final(rest)@, 0, S::sorts()),
        splitter_told(*old(splitter), *final(splitter), height as nat),
{
    let n = rest.len();
    assert(n == rest@.len());
    recurse_into_new(height, binstrat, &sorter, div_axis, rest, 0, dlevel, splitter, 0)
}

/// A dinotree over a slice of elements. The tree permutes the slice so that the elements
/// of every node are consecutive, the nodes taken in preorder.
pub struct DinoTree<'a, T> {
    axis: Axis,
    height: usize,
    bots: &'a mut [T],
    nodes: Vec<Node>,
    sorted: bool,
}

impl<'a, T: HasAabb> DinoTree<'a, T> {
    /// The axis of the root's divider.
    pub closed spec fn spec_axis(&self) -> Axis {
        self.axis
    }

    /// The height of the tree.
    pub closed spec fn spec_height(&self) -> nat {
        self.height as nat
    }

    /// The elements, in the order of the nodes.
    pub closed spec fn spec_bots(&self) -> Seq<T> {
        self.bots@
    }

    /// The nodes, in preorder.
    pub closed spec fn spec_nodes(&self) -> Seq<Node> {
        self.nodes@
    }

    /// The reference to the elements the tree was built over.
    pub closed spec fn handle(&self) -> &'a mut [T] {
        self.bots
    }

    /// Once a tree is no longer used, the elements it was built over are left as the
    /// tree holds them.
    pub broadcast proof fn lemma_tree_resolved(self)
        ensures
            #[trigger] has_resolved(self) ==> final(self.handle())@ == self.spec_bots(),
    {
    }

    /// Whether the elements of every node are sorted along the axis after the node's.
    pub closed spec fn is_sorted(&self) -> bool {
        self.sorted
    }

    /// The tree satisfies the invariants of a dinotree.
    pub open spec fn wf(&self) -> bool {
        &&& self.spec_height() >= 1
        &&& wf_subtree(self.spec_axis(), self.spec_height(), self.spec_nodes(), self.spec_bots(), 0, self.is_sorted())
    }

    /// Checks whether the tree satisfies the invariants of a dinotree.
    pub fn assert_invariants(&self) -> (r: bool)
        ensures
            r == self.wf(),
    {
        let num_bots = self.bots.len();
        assert(num_bots == self.bots@.len());
        self.height >= 1 && check_subtree(self.axis, self.height, self.nodes.as_slice(), &*self.bots, 0, self.sorted)
    }

    /// The axis of the root's divider.
    pub fn axis(&self) -> (r: Axis)
        ensures
            r == self.spec_axis(),
    {
        self.axis
    }

    /// The height of the tree.
    pub fn get_height(&self) -> (r: usize)
        ensures
            r == self.spec_height(),
    {
        self.height
    }

    /// The number of nodes of the tree.
    pub fn num_nodes(&self) -> (r: usize)
        ensures
            r == self.spec_nodes().len(),
    {
        self.nodes.len()
    }

    /// The number of elements in the tree.
    pub fn num_bots(&self) -> (r: usize)
        ensures
            r == self.spec_bots().len(),
    {
        self.bots.len()
    }
}


/// Builds a dinotree over a slice.
pub struct DinoTreeBuilder<'a, T> {
    axis: Axis,
    bots: &'a mut [T],
    rebal_strat: BinStrat,
    height: usize,
    height_switch_seq: usize,
}

impl<'a, T: HasAabb> DinoTreeBuilder<'a, T> {
    /// The axis of the root's divider.
    pub closed spec fn spec_axis(&self) -> Axis {
        self.axis
    }

    /// The elements the tree will be built over.
    pub closed spec fn spec_bots(&self) -> Seq<T> {
        self.bots@
    }

    /// The reference to the elements the tree will be built over.
    pub closed spec fn handle(&self) -> &'a mut [T] {
        self.bots
    }

    /// Once a builder is no longer used, the elements are left as it holds them.
    pub broadcast proof fn lemma_builder_resolved(self)
        ensures
            #[trigger] has_resolved(self) ==> final(self.handle())@ == self.spec_bots(),
    {
    }

    /// The strategy used to bin elements.
    pub closed spec fn spec_bin_strat(&self) -> BinStrat {
        self.rebal_strat
    }

    /// The height of the tree to build.
    pub closed spec fn spec_height(&self) -> nat {
        self.height as nat
    }

    /// The depth at which a parallel build switches to sequential.
    pub closed spec fn spec_height_switch_seq(&self) -> nat {
        self.height_switch_seq as nat
    }

    /// Creates a builder. The user picks the axis along which the first divider will
    /// partition; if it is the x axis, the first divider is a line from top to bottom.
    pub fn new(axis: Axis, bots: &'a mut [T]) -> (r: DinoTreeBuilder<'a, T>)
        ensures
            r.spec_axis() == axis,
            r.spec_bots() == old(bots)@,
            r.spec_bin_strat() == BinStrat::Checked,
            r.spec_height() == spec_height_heuristic(old(bots)@.len(), 128),
            r.spec_height_switch_seq() == 6,
            final(bots)@ == final(r.handle())@,
    {
        let rebal_strat = BinStrat::Checked;
        let height = compute_tree_height_heuristic(bots.len());
        let height_switch_seq = default_level_switch_sequential();
        DinoTreeBuilder { axis, bots, rebal_strat, height, height_switch_seq }
    }

    /// Chooses a custom bin strategy.
    pub fn with_bin_strat(&mut self, strat: BinStrat) -> (r: &mut Self)
        ensures
            r.spec_bin_strat() == strat,
            r.spec_axis() == old(self).spec_axis(),
            r.spec_bots() == old(self).spec_bots(),
            r.spec_height() == old(self).spec_height(),
            r.spec_height_switch_seq() == old(self).spec_height_switch_seq(),
            *final(self) == *final(r),
            final(r.handle())@ == final(old(self).handle())@,
    {
        self.rebal_strat = strat;
        self
    }

    /// Chooses a custom height for the tree.
    pub fn with_height(&mut self, height: usize) -> (r: &mut Self)
        ensures
            r.spec_height() == height,
            r.spec_axis() == old(self).spec_axis(),
            r.spec_bots() == old(self).spec_bots(),
            r.spec_bin_strat() == old(self).spec_bin_strat(),
            r.spec_height_switch_seq() == old(self).spec_height_switch_seq(),
            *final(self) == *final(r),
            final(r.handle())@ == final(old(self).handle())@,
    {
        self.height = height;
        self
    }

    /// Chooses the depth at which to switch from parallel to sequential. If you end up
    /// building sequentially, this argument is ignored.
    pub fn with_height_switch_seq(&mut self, height: usize) -> (r: &mut Self)
        ensures
            r.spec_height_switch_seq() == height,
            r.spec_axis() == old(self).spec_axis(),
            r.spec_bots() == old(self).spec_bots(),
            r.spec_bin_strat() == old(self).spec_bin_strat(),
            r.spec_height() == old(self).spec_height(),
            *final(self) == *final(r),
            final(r.handle())@ == final(old(self).handle())@,
    {
        self.height_switch_seq = height;
        self
    }

    /// Builds the tree sequentially with the given sorter, with a splitter that is told
    /// of every node.
    pub(crate) fn build_seq_with<S: Sorter, K: Splitter>(self, sorter: S, splitter: &mut K) -> (r: DinoTree<'a, T>)
        requires
            self.spec_height() >= 1,
        ensures
            r.wf(),
            r.is_sorted() == S::sorts(),
            r.spec_axis() == self.spec_axis(),
            r.spec_height() == self.spec_height(),
            r.spec_bots().to_multiset() == self.spec_bots().to_multiset(),
            final(self.handle())@ == final(r.handle())@,
            splitter_told(*old(splitter), *final(splitter), self.spec_height()),
    {
        let DinoTreeBuilder { axis, bots, rebal_strat, height, height_switch_seq } = self;
        let sorter_sorts = sorter.is_sorting();
        let nodes = create_tree_seq(axis, bots, sorter, splitter, height, rebal_strat);
        DinoTree { axis, height, bots, nodes, sorted: sorter_sorts }
    }

    /// Builds the tree sequentially, with a splitter that is told of every node: of the
    /// start of every node, of the end of every leaf, and of the division and the joining
    /// at every non leaf node.
    pub fn build_with_splitter_seq<K: Splitter>(self, splitter: &mut K) -> (r: DinoTree<'a, T>)
        requires
            self.spec_height() >= 1,
        ensures
            r.wf(),
            r.is_sorted(),
            r.spec_axis() == self.spec_axis(),
            r.spec_height() == self.spec_height(),
            r.spec_bots().to_multiset() == self.spec_bots().to_multiset(),
            final(self.handle())@ == final(r.handle())@,
            splitter_told(*old(splitter), *final(splitter), self.spec_height()),
    {
        self.build_seq_with(DefaultSorter, splitter)
    }

    /// Builds the tree sequentially.
    pub fn build_seq(self) -> (r: DinoTree<'a, T>)
        requires
            self.spec_height() >= 1,
        ensures
            r.wf(),
            r.is_sorted(),
            r.spec_axis() == self.spec_axis(),
            r.spec_height() == self.spec_height(),
            r.spec_bots().to_multiset() == self.spec_bots().to_multiset(),
            final(self.handle())@ == final(r.handle())@,
    {
        let mut splitter = SplitterEmpty;
        self.build_with_splitter_seq(&mut splitter)
    }
}

/// A complete binary tree of height at least 2 splits into a root and two halves.
proof fn lemma_num_nodes_split(h: nat)
    requires
        h >= 1,
    ensures
        num_nodes_of_height(h) >= 1,
        num_nodes_of_height(h) == 1 <==> h == 1,
        h >= 2 ==> (num_nodes_of_height(h) - 1) / 2 == num_nodes_of_height((h - 1) as nat),
        h >= 2 ==> num_nodes_of_height(h) == 2 * num_nodes_of_height((h - 1) as nat) + 1,
{
    assert(num_nodes_of_height(0) == 0);
    assert(num_nodes_of_height(h) == 2 * num_nodes_of_height((h - 1) as nat) + 1);
    if h >= 2 {
        assert(num_nodes_of_height((h - 1) as nat) == 2 * num_nodes_of_height((h - 2) as nat) + 1);
    }
}

/// Reference to a node in the dinotree.
pub struct NodeRef<'a, T> {
    /// The bots that belong to this node.
    pub bots: &'a [T],
    /// Is `None` iff bots is empty.
    pub cont: &'a Option<Range>,
    /// Is `None` if the node is a leaf, or there are no bots in this node or in any
    /// descendant.
    pub div: &'a Option<isize>,
}

/// Tree iterator that returns a reference to each node.
pub struct Vistr<'a, T: HasAabb> {
    axis: Axis,
    height: usize,
    base: usize,
    bots: &'a [T],
    nodes: &'a [Node],
    sorted: bool,
}

impl<'a, T: HasAabb> Vistr<'a, T> {
    /// The axis of the divider of the subtree's root.
    pub closed spec fn spec_axis(&self) -> Axis {
        self.axis
    }

    /// The height of the subtree.
    pub closed spec fn spec_height(&self) -> nat {
        self.height as nat
    }

    /// The index, in the whole tree, of the first element of the subtree.
    pub closed spec fn spec_base(&self) -> int {
        self.base as int
    }

    /// The elements of the subtree, in the order of its nodes.
    pub closed spec fn spec_bots(&self) -> Seq<T> {
        self.bots@
    }

    /// The nodes of the subtree, in preorder.
    pub closed spec fn spec_nodes(&self) -> Seq<Node> {
        self.nodes@
    }

    /// Whether the elements of every node are sorted along the axis after the node's.
    pub closed spec fn is_sorted(&self) -> bool {
        self.sorted
    }

    /// The subtree satisfies the invariants of a dinotree; every visitor does.
    #[verifier::type_invariant]
    pub open spec fn wf(&self) -> bool {
        &&& self.spec_height() >= 1
        &&& self.spec_base() + self.spec_bots().len() <= usize::MAX
        &&& wf_subtree(
            self.spec_axis(),
            self.spec_height(),
            self.spec_nodes(),
            self.spec_bots(),
            self.spec_base(),
            self.is_sorted(),
        )
    }

    /// A copy of this iterator.
    pub fn create_wrap(&self) -> (r: Vistr<'_, T>)
        ensures
            r.spec_axis() == self.spec_axis(),
            r.spec_height() == self.spec_height(),
            r.spec_base() == self.spec_base(),
            r.spec_bots() == self.spec_bots(),
            r.spec_nodes() == self.spec_nodes(),
            r.is_sorted() == self.is_sorted(),
    {
        proof {
            use_type_invariant(self);
        }
        Vistr {
            axis: self.axis,
            height: self.height,
            base: self.base,
            bots: self.bots,
            nodes: self.nodes,
            sorted: self.sorted,
        }
    }

    /// The height of the subtree.
    pub fn height(&self) -> (r: usize)
        ensures
            r == self.spec_height(),
    {
        self.height
    }

    /// Returns the subtree's root node and, unless the root is a leaf, iterators over its
    /// two subtrees.
    pub fn next(self) -> (r: (NodeRef<'a, T>, Option<[Vistr<'a, T>; 2]>))
        ensures
            ({
                let n = self.spec_nodes()[0];
                let (nr, rest) = r;
                &&& nr.bots@ == self.spec_bots().subrange(0, n.len as int)
                &&& *nr.cont == n.cont
                &&& *nr.div == n.div
                &&& (rest is None <==> self.spec_height() == 1)
                &&& (rest matches Some(children) ==> {
                    let s = num_nodes_of_height((self.spec_height() - 1) as nat) as int;
                    let split = self.spec_nodes()[1 + s].start - self.spec_base();
                    &&& children[0].wf()
                    &&& children[1].wf()
                    &&& children[0].spec_axis() == self.spec_axis().spec_next()
                    &&& children[1].spec_axis() == self.spec_axis().spec_next()
                    &&& children[0].spec_height() == self.spec_height() - 1
                    &&& children[1].spec_height() == self.spec_height() - 1
                    &&& children[0].is_sorted() == self.is_sorted()
                    &&& children[1].is_sorted() == self.is_sorted()
                    &&& children[0].spec_nodes() == self.spec_nodes().subrange(1, 1 + s)
                    &&& children[1].spec_nodes() == self.spec_nodes().subrange(1 + s, self.spec_nodes().len() as int)
                    &&& children[0].spec_bots() == self.spec_bots().subrange(n.len as int, split)
                    &&& children[1].spec_bots() == self.spec_bots().subrange(split, self.spec_bots().len() as int)
                    &&& children[0].spec_base() == self.spec_base() + n.len
                    &&& children[1].spec_base() == self.spec_base() + split
                })
            }),
    {
        proof {
            use_type_invariant(&self);
            lemma_num_nodes_split(self.height as nat);
        }
        let node = &self.nodes[0];
        let mid = vstd::slice::slice_subrange(self.bots, 0, node.len);
        let nr = NodeRef { bots: mid, cont: &node.cont, div: &node.div };
        if self.nodes.len() == 1 {
            (nr, None)
        } else {
            let len = self.nodes.len();
            let s = (len - 1) / 2;
            let right_start = self.nodes[1 + s].start;
            let split = right_start - self.base;
            let left = Vistr {
                axis: self.axis.next(),
                height: self.height - 1,
                base: self.base + node.len,
                bots: vstd::slice::slice_subrange(self.bots, node.len, split),
                nodes: vstd::slice::slice_subrange(self.nodes, 1, 1 + s),
                sorted: self.sorted,
            };
            let right = Vistr {
                axis: self.axis.next(),
                height: self.height - 1,
                base: right_start,
                bots: vstd::slice::slice_subrange(self.bots, split, self.bots.len()),
                nodes: vstd::slice::slice_subrange(self.nodes, 1 + s, len),
                sorted: self.sorted,
            };
            (nr, Some([left, right]))
        }
    }
}

/// The depth of the node at preorder index `i` of a complete binary tree of height `h`:
/// the root, at index 0, is at depth 0; the nodes of the left subtree follow it, then
/// those of the right subtree, each one level deeper than in its own subtree.
pub open spec fn preorder_depth(h: nat, i: int) -> int
    decreases h,
{
    if h <= 1 || i <= 0 {
        0
    } else {
        let s = num_nodes_of_height((h - 1) as nat) as int;
        if i <= s {
            1 + preorder_depth((h - 1) as nat, i - 1)
        } else {
            1 + preorder_depth((h - 1) as nat, i - 1 - s)
        }
    }
}

/// The sum of `f(i)` over `a <= i < b`.
pub open spec fn range_sum(f: spec_fn(int) -> int, a: int, b: int) -> int
    decreases b - a,
{
    if b <= a {
        0
    } else {
        range_sum(f, a, b - 1) + f(b - 1)
    }
}

/// The number of elements of the node at preorder index `i` if it is at depth `k`, else 0.
pub open spec fn len_at_depth(nodes: Seq<Node>, h: nat, k: int) -> spec_fn(int) -> int {
    |i: int| if preorder_depth(h, i) == k { nodes[i].len as int } else { 0 }
}

/// The number of elements held by the nodes at depth `k` of the complete binary tree of
/// height `h` whose nodes, in preorder, are `nodes`.
pub open spec fn elements_at_depth(nodes: Seq<Node>, h: nat, k: int) -> int {
    range_sum(len_at_depth(nodes, h, k), 0, nodes.len() as int)
}

/// Depths are never negative.
proof fn lemma_preorder_depth_nonneg(h: nat, i: int)
    ensures
        preorder_depth(h, i) >= 0,
    decreases h,
{
    if h > 1 && i > 0 {
        let s = num_nodes_of_height((h - 1) as nat) as int;
        if i <= s {
            lemma_preorder_depth_nonneg((h - 1) as nat, i - 1);
        } else {
            lemma_preorder_depth_nonneg((h - 1) as nat, i - 1 - s);
        }
    }
}

/// A sum over a range splits at any point inside it.
proof fn lemma_range_sum_split(f: spec_fn(int) -> int, a: int, m: int, b: int)
    requires
        a <= m <= b,
    ensures
        range_sum(f, a, b) == range_sum(f, a, m) + range_sum(f, m, b),
    decreases b - m,
{
    if b > m {
        lemma_range_sum_split(f, a, m, b - 1);
    }
}

/// Summing `f` over `[a, b)` is summing `g` over the range shifted by `c`, when
/// `f(i) == g(i - c)`.
proof fn lemma_range_sum_shift(f: spec_fn(int) -> int, g: spec_fn(int) -> int, a: int, b: int, c: int)
    requires
        forall|i: int| a <= i < b ==> #[trigger] f(i) == g(i - c),
    ensures
        range_sum(f, a, b) == range_sum(g, a - c, b - c),
    decreases b - a,
{
    if b > a {
        lemma_range_sum_shift(f, g, a, b - 1, c);
        assert(f(b - 1) == g(b - 1 - c));
    }
}

/// A sum of zeros is zero.
proof fn lemma_range_sum_zero(f: spec_fn(int) -> int, a: int, b: int)
    requires
        forall|i: int| a <= i < b ==> #[trigger] f(i) == 0,
    ensures
        range_sum(f, a, b) == 0,
    decreases b - a,
{
    if b > a {
        lemma_range_sum_zero(f, a, b - 1);
    }
}

/// Entry `k` of `level_sizes` is the number of elements held by the nodes at depth `k`:
/// the root's first, the leaves' last.
pub proof fn lemma_level_sizes_by_depth(nodes: Seq<Node>, h: nat)
    requires
        h >= 1,
        nodes.len() == num_nodes_of_height(h),
    ensures
        level_sizes(nodes, h).len() == h,
        forall|k: int|
            #![trigger level_sizes(nodes, h)[k]]
            #![trigger elements_at_depth(nodes, h, k)]
            0 <= k < h ==> level_sizes(nodes, h)[k] == elements_at_depth(nodes, h, k),
    decreases h,
{
    lemma_num_nodes_split(h);
    let n = nodes.len() as int;
    if h == 1 {
        assert(elements_at_depth(nodes, h, 0) == nodes[0].len) by {
            assert(range_sum(len_at_depth(nodes, h, 0), 0, 0) == 0);
        }
    } else {
        let s = num_nodes_of_height((h - 1) as nat) as int;
        let ln = nodes.subrange(1, 1 + s);
        let rn = nodes.subrange(1 + s, n);
        lemma_level_sizes_by_depth(ln, (h - 1) as nat);
        lemma_level_sizes_by_depth(rn, (h - 1) as nat);
        let l = level_sizes(ln, (h - 1) as nat);
        let r = level_sizes(rn, (h - 1) as nat);
        assert(level_sizes(nodes, h) == seq![nodes[0].len as int] + Seq::new((h - 1) as nat, |i: int| l[i] + r[i]));
        assert forall|k: int| 0 <= k < h implies #[trigger] level_sizes(nodes, h)[k] == elements_at_depth(nodes, h, k) by {
            let f = len_at_depth(nodes, h, k);
            lemma_range_sum_split(f, 0, 1, n);
            lemma_range_sum_split(f, 1, 1 + s, n);
            assert(range_sum(f, 0, 1) == f(0)) by {
                assert(range_sum(f, 0, 0) == 0);
            }
            assert(preorder_depth(h, 0) == 0);
            if k == 0 {
                assert forall|i: int| 1 <= i < n implies #[trigger] f(i) == 0 by {
                    if i <= s {
                        lemma_preorder_depth_nonneg((h - 1) as nat, i - 1);
                    } else {
                        lemma_preorder_depth_nonneg((h - 1) as nat, i - 1 - s);
                    }
                }
                lemma_range_sum_zero(f, 1, 1 + s);
                lemma_range_sum_zero(f, 1 + s, n);
            } else {
                let fl = len_at_depth(ln, (h - 1) as nat, k - 1);
                let fr = len_at_depth(rn, (h - 1) as nat, k - 1);
                assert forall|i: int| 1 <= i < 1 + s implies #[trigger] f(i) == fl(i - 1) by {
                    assert(ln[i - 1] == nodes[i]);
                }
                assert forall|i: int| 1 + s <= i < n implies #[trigger] f(i) == fr(i - (1 + s)) by {
                    assert(rn[i - 1 - s] == nodes[i]);
                }
                lemma_range_sum_shift(f, fl, 1, 1 + s, 1);
                lemma_range_sum_shift(f, fr, 1 + s, n, 1 + s);
                assert(level_sizes(nodes, h)[k] == l[k - 1] + r[k - 1]);
            }
        }
    }
}

/// The number of elements at each depth of the subtree of height `h` whose nodes, in
/// preorder, are `nodes`: the root's first, the leaves' last.
pub open spec fn level_sizes(nodes: Seq<Node>, h: nat) -> Seq<int>
    decreases h,
{
    if h == 0 {
        Seq::empty()
    } else if h == 1 {
        seq![nodes[0].len as int]
    } else {
        let s = num_nodes_of_height((h - 1) as nat) as int;
        let l = level_sizes(nodes.subrange(1, 1 + s), (h - 1) as nat);
        let r = level_sizes(nodes.subrange(1 + s, nodes.len() as int), (h - 1) as nat);
        seq![nodes[0].len as int] + Seq::new((h - 1) as nat, |i: int| l[i] + r[i])
    }
}

/// Every depth of a well formed subtree holds at most all of its elements.
proof fn lemma_level_sizes_bounded<T: HasAabb>(
    axis: Axis,
    h: nat,
    nodes: Seq<Node>,
    bots: Seq<T>,
    base: int,
    sorted: bool,
)
    requires
        wf_subtree(axis, h, nodes, bots, base, sorted),
    ensures
        level_sizes(nodes, h).len() == h,
        forall|i: int| 0 <= i < h ==> 0 <= #[trigger] level_sizes(nodes, h)[i] <= bots.len(),
    decreases h,
{
    if h >= 2 {
        let n = nodes[0];
        let s = num_nodes_of_height((h - 1) as nat) as int;
        let split = nodes[1 + s].start - base;
        let ln = nodes.subrange(1, 1 + s);
        let rn = nodes.subrange(1 + s, nodes.len() as int);
        let lb = bots.subrange(n.len as int, split);
        let rb = bots.subrange(split, bots.len() as int);
        lemma_level_sizes_bounded(axis.spec_next(), (h - 1) as nat, ln, lb, base + n.len, sorted);
        lemma_level_sizes_bounded(axis.spec_next(), (h - 1) as nat, rn, rb, base + split, sorted);
        let l = level_sizes(ln, (h - 1) as nat);
        let r = level_sizes(rn, (h - 1) as nat);
        assert forall|i: int| 0 <= i < h implies 0 <= #[trigger] level_sizes(nodes, h)[i] <= bots.len() by {
            if i > 0 {
                assert(level_sizes(nodes, h)[i] == l[i - 1] + r[i - 1]);
                assert(l[i - 1] <= lb.len());
                assert(r[i - 1] <= rb.len());
            }
        }
    }
}

impl<'a, T: HasAabb> Vistr<'a, T> {
    /// The number of elements at each depth of the subtree, from the root's depth to the
    /// leaves': entry `k` is the number of elements held by the nodes at depth `k`.
    pub fn bots_per_level(self) -> (r: Vec<usize>)
        ensures
            r@.len() == self.spec_height(),
            forall|i: int| 0 <= i < r@.len() ==> r@[i] == #[trigger] level_sizes(self.spec_nodes(), self.spec_height())[i],
            forall|k: int| 0 <= k < r@.len() ==> #[trigger] r@[k] == elements_at_depth(self.spec_nodes(), self.spec_height(), k),
        decreases self.spec_height(),
    {
        proof {
            use_type_invariant(&self);
            lemma_level_sizes_by_depth(self.spec_nodes(), self.spec_height());
        }
        let h = self.height();
        let ghost nodes = self.spec_nodes();
        proof {
            lemma_level_sizes_bounded(self.spec_axis(), h as nat, nodes, self.spec_bots(), self.spec_base(), self.is_sorted());
        }
        let (n, rest) = self.next();
        let mut out: Vec<usize> = Vec::new();
        out.push(n.bots.len());
        match rest {
            None => {
                out
            },
            Some(children) => {
                let a = children[0].create_wrap();
                let b = children[1].create_wrap();
                let ghost ln = a.spec_nodes();
                let ghost rn = b.spec_nodes();
                proof {
                    lemma_level_sizes_bounded(a.spec_axis(), a.spec_height(), ln, a.spec_bots(), a.spec_base(), a.is_sorted());
                    lemma_level_sizes_bounded(b.spec_axis(), b.spec_height(), rn, b.spec_bots(), b.spec_base(), b.is_sorted());
                }
                let la = a.bots_per_level();
                let lb = b.bots_per_level();
                let mut i: usize = 0;
                while i < h - 1
                    invariant
                        h >= 2,
                        i <= h - 1,
                        la@.len() == h - 1,
                        lb@.len() == h - 1,
                        out@.len() == i + 1,
                        nodes.len() == num_nodes_of_height(h as nat),
                        forall|k: int| 0 <= k < h - 1 ==> la@[k] == #[trigger] level_sizes(ln, (h - 1) as nat)[k],
                        forall|k: int| 0 <= k < h - 1 ==> lb@[k] == #[trigger] level_sizes(rn, (h - 1) as nat)[k],
                        ln == nodes.subrange(1, 1 + num_nodes_of_height((h - 1) as nat) as int),
                        rn == nodes.subrange(1 + num_nodes_of_height((h - 1) as nat) as int, nodes.len() as int),
                        forall|k: int| 0 <= k < h ==> #[trigger] level_sizes(nodes, h as nat)[k] <= usize::MAX,
                        forall|k: int| 0 <= k <= i ==> out@[k] == #[trigger] level_sizes(nodes, h as nat)[k],
                    decreases h - 1 - i,
                {
                    proof {
                        let hh = h as nat;
                        let l = level_sizes(ln, (hh - 1) as nat);
                        let r = level_sizes(rn, (hh - 1) as nat);
                        let tail = Seq::new((hh - 1) as nat, |k: int| l[k] + r[k]);
                        assert(level_sizes(nodes, hh) == seq![nodes[0].len as int] + tail);
                        assert((seq![nodes[0].len as int] + tail)[i + 1] == tail[i as int]);
                        assert(level_sizes(nodes, hh)[i + 1] == la@[i as int] + lb@[i as int]);
                    }
                    out.push(la[i] + lb[i]);
                    i += 1;
                }
                out
            },
        }
    }
}

impl<'a, T: HasAabb> DinoTree<'a, T> {
    /// An iterator over the tree, starting at the root.
    pub fn vistr(&self) -> (r: Vistr<'_, T>)
        requires
            self.wf(),
        ensures
            r.wf(),
            r.spec_axis() == self.spec_axis(),
            r.spec_height() == self.spec_height(),
            r.spec_base() == 0,
            r.spec_bots() == self.spec_bots(),
            r.spec_nodes() == self.spec_nodes(),
            r.is_sorted() == self.is_sorted(),
    {
        let num_bots = self.bots.len();
        assert(num_bots == self.bots@.len());
        Vistr {
            axis: self.axis,
            height: self.height,
            base: 0,
            bots: &*self.bots,
            nodes: self.nodes.as_slice(),
            sorted: self.sorted,
        }
    }
}

/// Mutable reference to a node in the dinotree. The elements of the node can be reached,
/// but not moved.
pub struct NodeRefMut<'a, T> {
    /// The bots that belong to this node.
    pub bots: ProtectedBBoxSlice<'a, T>,
    /// Is `None` iff bots is empty.
    pub cont: &'a Option<Range>,
    /// Is `None` if the node is a leaf, or there are no bots in this node or in any
    /// descendant.
    pub div: &'a Option<isize>,
}

/// Tree iterator that returns a mutable reference to each node.
pub struct VistrMut<'a, T> {
    axis: Axis,
    height: usize,
    base: usize,
    bots: &'a mut [T],
    nodes: &'a [Node],
    sorted: bool,
}

impl<'a, T: HasAabb> VistrMut<'a, T> {
    /// The axis of the divider of the subtree's root.
    pub closed spec fn spec_axis(&self) -> Axis {
        self.axis
    }

    /// The height of the subtree.
    pub closed spec fn spec_height(&self) -> nat {
        self.height as nat
    }

    /// The index, in the whole tree, of the first element of the subtree.
    pub closed spec fn spec_base(&self) -> int {
        self.base as int
    }

    /// The elements of the subtree, in the order of its nodes.
    pub closed spec fn spec_bots(&self) -> Seq<T> {
        self.bots@
    }

    /// The reference to the elements of the subtree.
    pub closed spec fn handle(&self) -> &'a mut [T] {
        self.bots
    }

    /// Once an iterator is no longer used, the elements of its subtree are left as it
    /// holds them.
    pub broadcast proof fn lemma_vistr_resolved(self)
        ensures
            #[trigger] has_resolved(self) ==> final(self.handle())@ == self.spec_bots(),
    {
    }

    /// The nodes of the subtree, in preorder.
    pub closed spec fn spec_nodes(&self) -> Seq<Node> {
        self.nodes@
    }

    /// Whether the elements of every node are sorted along the axis after the node's.
    pub closed spec fn is_sorted(&self) -> bool {
        self.sorted
    }

    /// The subtree satisfies the invariants of a dinotree.
    pub open spec fn wf(&self) -> bool {
        &&& self.spec_height() >= 1
        &&& self.spec_base() + self.spec_bots().len() <= usize::MAX
        &&& wf_subtree(
            self.spec_axis(),
            self.spec_height(),
            self.spec_nodes(),
            self.spec_bots(),
            self.spec_base(),
            self.is_sorted(),
        )
    }

    /// Checks whether the subtree satisfies the invariants of a dinotree.
    pub fn assert_invariants(&self) -> (r: bool)
        ensures
            r == self.wf(),
    {
        let n = self.bots.len();
        match self.base.checked_add(n) {
            None => false,
            Some(_) => self.height >= 1 && check_subtree(self.axis, self.height, self.nodes, &*self.bots, self.base, self.sorted),
        }
    }

    /// A read only iterator over the same subtree.
    pub fn as_vistr(&self) -> (r: Vistr<'_, T>)
        requires
            self.wf(),
        ensures
            r.spec_axis() == self.spec_axis(),
            r.spec_height() == self.spec_height(),
            r.spec_base() == self.spec_base(),
            r.spec_bots() == self.spec_bots(),
            r.spec_nodes() == self.spec_nodes(),
            r.is_sorted() == self.is_sorted(),
    {
        Vistr {
            axis: self.axis,
            height: self.height,
            base: self.base,
            bots: &*self.bots,
            nodes: self.nodes,
            sorted: self.sorted,
        }
    }

    /// Reborrows this iterator: what is written through the result is written to the
    /// elements of this one.
    pub fn create_wrap_mut(&mut self) -> (r: VistrMut<'_, T>)
        ensures
            r.spec_axis() == old(self).spec_axis(),
            r.spec_height() == old(self).spec_height(),
            r.spec_base() == old(self).spec_base(),
            r.spec_bots() == old(self).spec_bots(),
            r.spec_nodes() == old(self).spec_nodes(),
            r.is_sorted() == old(self).is_sorted(),
            final(self).spec_axis() == old(self).spec_axis(),
            final(self).spec_height() == old(self).spec_height(),
            final(self).spec_base() == old(self).spec_base(),
            final(self).spec_nodes() == old(self).spec_nodes(),
            final(self).is_sorted() == old(self).is_sorted(),
            final(self).spec_bots() == final(r.handle())@,
            final(final(self).handle())@ == final(old(self).handle())@,
    {
        VistrMut {
            axis: self.axis,
            height: self.height,
            base: self.base,
            bots: &mut *self.bots,
            nodes: self.nodes,
            sorted: self.sorted,
        }
    }

    /// The height of the subtree.
    pub fn height(&self) -> (r: usize)
        ensures
            r == self.spec_height(),
    {
        self.height
    }

    /// Returns the subtree's root node and, unless the root is a leaf, iterators over its
    /// two subtrees.
    pub fn next(self) -> (r: (NodeRefMut<'a, T>, Option<[VistrMut<'a, T>; 2]>))
        requires
            self.wf(),
        ensures
            ({
                let n = self.spec_nodes()[0];
                let (nr, rest) = r;
                &&& nr.bots.view() == self.spec_bots().subrange(0, n.len as int)
                &&& *nr.cont == n.cont
                &&& *nr.div == n.div
                &&& (rest is None <==> self.spec_height() == 1)
                &&& (rest matches Some(children) ==> {
                    let s = num_nodes_of_height((self.spec_height() - 1) as nat) as int;
                    let split = self.spec_nodes()[1 + s].start - self.spec_base();
                    &&& children[0].wf()
                    &&& children[1].wf()
                    &&& children[0].spec_axis() == self.spec_axis().spec_next()
                    &&& children[1].spec_axis() == self.spec_axis().spec_next()
                    &&& children[0].spec_height() == self.spec_height() - 1
                    &&& children[1].spec_height() == self.spec_height() - 1
                    &&& children[0].is_sorted() == self.is_sorted()
                    &&& children[1].is_sorted() == self.is_sorted()
                    &&& children[0].spec_nodes() == self.spec_nodes().subrange(1, 1 + s)
                    &&& children[1].spec_nodes() == self.spec_nodes().subrange(1 + s, self.spec_nodes().len() as int)
                    &&& children[0].spec_bots() == self.spec_bots().subrange(n.len as int, split)
                    &&& children[1].spec_bots() == self.spec_bots().subrange(split, self.spec_bots().len() as int)
                    &&& children[0].spec_base() == self.spec_base() + n.len
                    &&& children[1].spec_base() == self.spec_base() + split
                    &&& final(self.handle())@ == final(nr.bots.handle())@ + final(children[0].handle())@
                        + final(children[1].handle())@
                })
                &&& (rest is None ==> final(self.handle())@ == final(nr.bots.handle())@)
            }),
    {
        proof {
            lemma_num_nodes_split(self.height as nat);
        }
        let nodes = self.nodes;
        let node = &nodes[0];
        let len = nodes.len();
        let ghost all = self.bots@;
        let (mid, rest) = self.bots.split_at_mut(node.len);
        let nr = NodeRefMut { bots: ProtectedBBoxSlice::new(mid), cont: &node.cont, div: &node.div };
        if len == 1 {
            (nr, None)
        } else {
            let s = (len - 1) / 2;
            let right_start = nodes[1 + s].start;
            let split = right_start - self.base;
            let (lb, rb) = rest.split_at_mut(split - node.len);
            proof {
                assert(lb@ =~= all.subrange(node.len as int, split as int));
                assert(rb@ =~= all.subrange(split as int, all.len() as int));
            }
            let left = VistrMut {
                axis: self.axis.next(),
                height: self.height - 1,
                base: self.base + node.len,
                bots: lb,
                nodes: vstd::slice::slice_subrange(nodes, 1, 1 + s),
                sorted: self.sorted,
            };
            let right = VistrMut {
                axis: self.axis.next(),
                height: self.height - 1,
                base: right_start,
                bots: rb,
                nodes: vstd::slice::slice_subrange(nodes, 1 + s, len),
                sorted: self.sorted,
            };
            (nr, Some([left, right]))
        }
    }
}

impl<'a, T: HasAabb> DinoTree<'a, T> {
    /// A mutable iterator over the tree, starting at the root: what is written through it
    /// is written to the elements of the tree, and nothing else of the tree changes.
    pub fn vistr_mut(&mut self) -> (r: VistrMut<'_, T>)
        requires
            old(self).wf(),
        ensures
            r.wf(),
            r.spec_axis() == old(self).spec_axis(),
            r.spec_height() == old(self).spec_height(),
            r.spec_base() == 0,
            r.spec_bots() == old(self).spec_bots(),
            r.spec_nodes() == old(self).spec_nodes(),
            r.is_sorted() == old(self).is_sorted(),
            final(self).spec_axis() == old(self).spec_axis(),
            final(self).spec_height() == old(self).spec_height(),
            final(self).spec_nodes() == old(self).spec_nodes(),
            final(self).is_sorted() == old(self).is_sorted(),
            final(self).spec_bots() == final(r.handle())@,
            final(final(self).handle())@ == final(old(self).handle())@,
    {
        let num_bots = self.bots.len();
        assert(num_bots == self.bots@.len());
        VistrMut {
            axis: self.axis,
            height: self.height,
            base: 0,
            bots: &mut *self.bots,
            nodes: self.nodes.as_slice(),
            sorted: self.sorted,
        }
    }
}

/// Total number of elements held by `nodes`.
pub open spec fn sum_lens(nodes: Seq<Node>) -> int
    decreases nodes.len(),
{
    if nodes.len() == 0 {
        0
    } else {
        sum_lens(nodes.drop_last()) + nodes.last().len
    }
}

/// A complete binary tree of height `h` has `2^h - 1` nodes.
pub proof fn lemma_num_nodes_pow2(h: nat)
    ensures
        num_nodes_of_height(h) == pow2(h) - 1,
    decreases h,
{
    if h == 0 {
        lemma2_to64();
    } else {
        lemma_num_nodes_pow2((h - 1) as nat);
        lemma_pow2_unfold(h);
    }
}

/// The nodes of a well formed subtree hold consecutive runs of its elements, in preorder,
/// and together they hold all of them.
#[verifier::spinoff_prover]
#[verifier::rlimit(40)]
pub proof fn lemma_wf_layout<T: HasAabb>(
    axis: Axis,
    h: nat,
    nodes: Seq<Node>,
    bots: Seq<T>,
    base: int,
    sorted: bool,
)
    requires
        wf_subtree(axis, h, nodes, bots, base, sorted),
    ensures
        nodes.len() >= 1,
        nodes[0].start == base,
        forall|i: int| 1 <= i < nodes.len() ==> #[trigger] nodes[i].start == nodes[i - 1].start + nodes[i - 1].len,
        nodes[nodes.len() - 1].start + nodes[nodes.len() - 1].len == base + bots.len(),
    decreases h,
{
    lemma_num_nodes_split(h);
    if h >= 2 {
        let n = nodes[0];
        let s = num_nodes_of_height((h - 1) as nat) as int;
        let split = nodes[1 + s].start - base;
        let ln = nodes.subrange(1, 1 + s);
        let rn = nodes.subrange(1 + s, nodes.len() as int);
        let lb = bots.subrange(n.len as int, split);
        let rb = bots.subrange(split, bots.len() as int);
        lemma_wf_layout(axis.spec_next(), (h - 1) as nat, ln, lb, base + n.len, sorted);
        lemma_wf_layout(axis.spec_next(), (h - 1) as nat, rn, rb, base + split, sorted);
        assert forall|i: int| 1 <= i < nodes.len() implies #[trigger] nodes[i].start == nodes[i - 1].start + nodes[i - 1].len by {
            if i == 1 {
                assert(nodes[1] == ln[0]);
            } else if i <= s {
                assert(nodes[i] == ln[i - 1]);
                assert(nodes[i - 1] == ln[i - 2]);
            } else if i == s + 1 {
                assert(nodes[i - 1] == ln[s - 1]);
                assert(nodes[i] == rn[0]);
            } else {
                assert(nodes[i] == rn[i - 1 - s]);
                assert(nodes[i - 1] == rn[i - 2 - s]);
            }
        }
        assert(nodes[nodes.len() - 1] == rn[rn.len() - 1]);
    }
}

/// The elements held by the first `k` nodes are those before the start of node `k`.
proof fn lemma_sum_lens_prefix(nodes: Seq<Node>, k: int)
    requires
        0 <= k < nodes.len(),
        forall|i: int| 1 <= i < nodes.len() ==> #[trigger] nodes[i].start == nodes[i - 1].start + nodes[i - 1].len,
    ensures
        sum_lens(nodes.subrange(0, k)) == nodes[k].start - nodes[0].start,
    decreases k,
{
    if k > 0 {
        lemma_sum_lens_prefix(nodes, k - 1);
        assert(nodes.subrange(0, k).drop_last() =~= nodes.subrange(0, k - 1));
        assert(nodes[k].start == nodes[k - 1].start + nodes[k - 1].len);
    }
}

impl<'a, T: HasAabb> DinoTree<'a, T> {
    /// Two trees with the same first axis and height, over the same elements (in any
    /// order), have the same nodes, whether built sequentially or in parallel, sorted or
    /// not, and every node holds the same elements up to their order: the layout of a
    /// tree only depends on the elements it is built over.
    pub proof fn lemma_same_layout(&self, other: &DinoTree<'a, T>)
        requires
            self.wf(),
            other.wf(),
            self.spec_axis() == other.spec_axis(),
            self.spec_height() == other.spec_height(),
            self.spec_bots().to_multiset() == other.spec_bots().to_multiset(),
        ensures
            self.spec_nodes() == other.spec_nodes(),
            forall|i: int| 0 <= i < self.spec_nodes().len() ==>
                (#[trigger] crate::tree::layout::node_bots(self.spec_nodes(), self.spec_bots(), 0, i)).to_multiset()
                == crate::tree::layout::node_bots(other.spec_nodes(), other.spec_bots(), 0, i).to_multiset(),
    {
        crate::tree::layout::lemma_layout_determined(
            self.spec_axis(),
            self.spec_height(),
            self.spec_nodes(),
            self.spec_bots(),
            other.spec_nodes(),
            other.spec_bots(),
            0,
            self.is_sorted(),
            other.is_sorted(),
        );
    }

    /// The nodes of the tree hold consecutive runs of the tree's elements, in preorder;
    /// together they hold every element exactly once, and there are `2^height - 1` nodes.
    pub proof fn lemma_nodes_partition_bots(&self)
        requires
            self.wf(),
        ensures
            self.spec_nodes().len() == pow2(self.spec_height()) - 1,
            self.spec_nodes()[0].start == 0,
            forall|i: int|
                1 <= i < self.spec_nodes().len() ==> #[trigger] self.spec_nodes()[i].start
                    == self.spec_nodes()[i - 1].start + self.spec_nodes()[i - 1].len,
            sum_lens(self.spec_nodes()) == self.spec_bots().len(),
    {
        let nodes = self.spec_nodes();
        lemma_num_nodes_pow2(self.spec_height());
        lemma_wf_layout(self.spec_axis(), self.spec_height(), nodes, self.spec_bots(), 0, self.is_sorted());
        let k = nodes.len() - 1;
        lemma_sum_lens_prefix(nodes, k);
        assert(nodes.subrange(0, k + 1).drop_last() =~= nodes.subrange(0, k));
        assert(nodes.subrange(0, k + 1) =~= nodes);
    }
}

/// Every element of `s` has a range along `axis` whose left border is not past its right
/// border.
pub open spec fn ranges_valid<T: HasAabb>(s: Seq<T>, axis: Axis) -> bool {
    forall|i: int| 0 <= i < s.len() ==> #[trigger] range_of(s[i], axis).left <= range_of(s[i], axis).right
}

/// What every node of a well formed tree satisfies, stated of the root of a subtree (every
/// node is the root of the subtree that a visitor reaches it with): its elements are
/// sorted along the next axis when the tree is sorted; its range is the hull of its
/// elements along its axis, and `None` exactly when it has none; it has a divider exactly
/// when it is not a leaf and its subtree holds elements; its elements touch the divider,
/// those of its left subtree lie left of it and those of its right subtree right of it;
/// and when every range is valid, a non leaf node whose subtree holds elements holds
/// elements itself, among them one whose left border is the divider.
pub proof fn lemma_root_node<T: HasAabb>(
    axis: Axis,
    h: nat,
    nodes: Seq<Node>,
    bots: Seq<T>,
    base: int,
    sorted: bool,
)
    requires
        wf_subtree(axis, h, nodes, bots, base, sorted),
    ensures
        ({
            let n = nodes[0];
            let mid = bots.subrange(0, n.len as int);
            &&& n.start == base
            &&& sorted ==> sorted_along(mid, axis.spec_next())
            &&& is_cont_of(n.cont, mid, axis)
            &&& (n.cont is None <==> n.len == 0)
            &&& (n.div is Some <==> (h >= 2 && bots.len() > 0))
            &&& (h >= 2 && ranges_valid(bots, axis) && bots.len() > 0 ==> n.len > 0)
            &&& (ranges_valid(bots, axis) ==> (n.div matches Some(d) ==>
                exists|i: int| 0 <= i < n.len && #[trigger] left_key(bots[i], axis) == d))
            &&& (n.div matches Some(d) ==> {
                let s = num_nodes_of_height((h - 1) as nat) as int;
                let split = nodes[1 + s].start - base;
                &&& n.len <= split <= bots.len()
                &&& forall|i: int| 0 <= i < n.len ==> touches(#[trigger] range_of(bots[i], axis), d)
                &&& forall|i: int| n.len <= i < split ==> left_of(#[trigger] range_of(bots[i], axis), d)
                &&& forall|i: int| split <= i < bots.len() ==> right_of(#[trigger] range_of(bots[i], axis), d)
            })
        }),
{
    let n = nodes[0];
    let mid = bots.subrange(0, n.len as int);
    if h >= 2 && ranges_valid(bots, axis) && bots.len() > 0 {
        lemma_nonempty_subtree_nonempty_root(axis, h, nodes, bots, base, sorted);
    }
    if let Some(d) = n.div {
        let s = num_nodes_of_height((h - 1) as nat) as int;
        let split = nodes[1 + s].start - base;
        let lb = bots.subrange(n.len as int, split);
        let rb = bots.subrange(split, bots.len() as int);
        assert forall|i: int| 0 <= i < n.len implies touches(#[trigger] range_of(bots[i], axis), d) by {
            assert(mid[i] == bots[i]);
        }
        assert forall|i: int| n.len <= i < split implies left_of(#[trigger] range_of(bots[i], axis), d) by {
            assert(lb[i - n.len] == bots[i]);
        }
        assert forall|i: int| split <= i < bots.len() implies right_of(#[trigger] range_of(bots[i], axis), d) by {
            assert(rb[i - split] == bots[i]);
        }
        if ranges_valid(bots, axis) {
            let i = choose|i: int| 0 <= i < bots.len() && #[trigger] left_key(bots[i], axis) == d;
            assert(range_of(bots[i], axis).left <= range_of(bots[i], axis).right);
            assert(i < n.len);
        }
    }
}

/// The median element always ends up in the node of its divider: a non leaf node whose
/// subtree holds elements holds at least one itself, provided every range is valid.
pub proof fn lemma_nonempty_subtree_nonempty_root<T: HasAabb>(
    axis: Axis,
    h: nat,
    nodes: Seq<Node>,
    bots: Seq<T>,
    base: int,
    sorted: bool,
)
    requires
        h >= 2,
        wf_subtree(axis, h, nodes, bots, base, sorted),
        ranges_valid(bots, axis),
        bots.len() > 0,
    ensures
        nodes[0].len > 0,
        nodes[0].div is Some,
        nodes[0].cont is Some,
{
    let n = nodes[0];
    let s = num_nodes_of_height((h - 1) as nat) as int;
    let split = nodes[1 + s].start - base;
    let d = n.div.unwrap();
    let i = choose|i: int| 0 <= i < bots.len() && #[trigger] left_key(bots[i], axis) == d;
    assert(range_of(bots[i], axis).left <= range_of(bots[i], axis).right);
    if i >= n.len && i < split {
        assert(bots.subrange(n.len as int, split)[i - n.len] == bots[i]);
    } else if i >= split {
        assert(bots.subrange(split, bots.len() as int)[i - split] == bots[i]);
    }
}

impl<'a, T: HasAabb + Send + Sync> DinoTreeBuilder<'a, T> {
    /// Builds the tree with the given sorter, the subtrees of the top levels in parallel.
    pub(crate) fn build_par_with<S: Sorter + Sync>(self, sorter: S) -> (r: DinoTree<'a, T>)
        requires
            self.spec_height() >= 1,
        ensures
            r.wf(),
            r.is_sorted() == S::sorts(),
            r.spec_axis() == self.spec_axis(),
            r.spec_height() == self.spec_height(),
            r.spec_bots().to_multiset() == self.spec_bots().to_multiset(),
            final(self.handle())@ == final(r.handle())@,
    {
        let DinoTreeBuilder { axis, bots, rebal_strat, height, height_switch_seq } = self;
        let sorter_sorts = sorter.is_sorting();
        let dlevel = compute_default_level_switch_sequential(height_switch_seq, height);
        let mut splitter = SplitterEmpty;
        let nodes = create_tree_par(axis, dlevel, bots, sorter, &mut splitter, height, rebal_strat);
        DinoTree { axis, height, bots, nodes, sorted: sorter_sorts }
    }

    /// Builds the tree, the subtrees of the top levels in parallel.
    pub fn build_par(self) -> (r: DinoTree<'a, T>)
        requires
            self.spec_height() >= 1,
        ensures
            r.wf(),
            r.is_sorted(),
            r.spec_axis() == self.spec_axis(),
            r.spec_height() == self.spec_height(),
            r.spec_bots().to_multiset() == self.spec_bots().to_multiset(),
            final(self.handle())@ == final(r.handle())@,
    {
        self.build_par_with(DefaultSorter)
    }
}

/// The divider is the median, so neither subtree below a node holds more than half of
/// the elements of the node's subtree, provided every range is valid.
pub proof fn lemma_subtrees_balanced<T: HasAabb>(
    axis: Axis,
    h: nat,
    nodes: Seq<Node>,
    bots: Seq<T>,
    base: int,
    sorted: bool,
)
    requires
        h >= 2,
        wf_subtree(axis, h, nodes, bots, base, sorted),
        ranges_valid(bots, axis),
    ensures
        ({
            let s = num_nodes_of_height((h - 1) as nat) as int;
            let split = nodes[1 + s].start - base;
            &&& split - nodes[0].len <= bots.len() / 2
            &&& bots.len() - split <= bots.len() / 2
        }),
{
    let n = nodes[0];
    let s = num_nodes_of_height((h - 1) as nat) as int;
    let split = nodes[1 + s].start - base;
    let mid = bots.subrange(0, n.len as int);
    let left = bots.subrange(n.len as int, split);
    let right = bots.subrange(split, bots.len() as int);
    if bots.len() > 0 {
        let d = n.div.unwrap();
        let pb = key_below::<T>(axis, d);
        let pa = key_at_most::<T>(axis, d);
        let pn = |b: T| !pa(b);
        assert(bots =~= mid + left + right);
        Seq::filter_distributes_over_add(mid + left, right, pb);
        Seq::filter_distributes_over_add(mid, left, pb);
        Seq::filter_distributes_over_add(mid + left, right, pa);
        Seq::filter_distributes_over_add(mid + left, right, pn);
        assert forall|i: int| 0 <= i < left.len() implies pb(#[trigger] left[i]) by {
            assert(left_of(range_of(left[i], axis), d));
            assert(left[i] == bots[n.len + i]);
            assert(range_of(bots[n.len + i], axis).left <= range_of(bots[n.len + i], axis).right);
        }
        lemma_filter_len_at_least(left, pb, left.len() as int);
        assert forall|i: int| 0 <= i < right.len() implies pn(#[trigger] right[i]) by {
            assert(right_of(range_of(right[i], axis), d));
        }
        lemma_filter_len_at_least(right, pn, right.len() as int);
        // every element is counted by exactly one of `pa` and `pn`
        lemma_filter_complement(bots, pa);
        assert(bots.filter(pn).len() >= right.len());
    }
}

/// Every element satisfies exactly one of `p` and its negation.
proof fn lemma_filter_complement<T>(s: Seq<T>, p: spec_fn(T) -> bool)
    ensures
        s.filter(p).len() + s.filter(|b: T| !p(b)).len() == s.len(),
    decreases s.len(),
{
    reveal(Seq::filter);
    if s.len() > 0 {
        lemma_filter_complement(s.drop_last(), p);
    }
}

} // verus!
