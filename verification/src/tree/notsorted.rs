//! A regular kd-tree: the elements that belong to a node are not sorted along an axis.
use vstd::prelude::*;
use crate::geom::Axis;
use crate::tree::{BinStrat, DinoTree, DinoTreeBuilder, NoSorter, Splitter, SplitterEmpty, Vistr, VistrMut};
use crate::HasAabb;

verus! {

/// A dinotree whose nodes' elements are left in the order binning left them.
pub struct NotSorted<'a, T>(DinoTree<'a, T>);

impl<'a, T: HasAabb> NotSorted<'a, T> {
    /// The underlying tree.
    pub closed spec fn tree(&self) -> DinoTree<'a, T> {
        self.0
    }

    /// Once a tree is no longer used, the elements it was built over are left as the
    /// tree holds them.
    pub broadcast proof fn lemma_not_sorted_resolved(self)
        ensures
            #[trigger] has_resolved(self) ==> final(self.tree().handle())@ == self.tree().spec_bots(),
    {
        broadcast use DinoTree::lemma_tree_resolved;
    }

    /// Checks whether the tree satisfies the invariants of a dinotree.
    pub fn assert_invariants(&self) -> (r: bool)
        ensures
            r == self.tree().wf(),
    {
        self.0.assert_invariants()
    }

    /// The axis of the root's divider.
    pub fn axis(&self) -> (r: Axis)
        ensures
            r == self.tree().spec_axis(),
    {
        self.0.axis()
    }

    /// An iterator over the tree, starting at the root.
    pub fn vistr(&self) -> (r: Vistr<'_, T>)
        requires
            self.tree().wf(),
        ensures
            r.wf(),
            r.spec_axis() == self.tree().spec_axis(),
            r.spec_height() == self.tree().spec_height(),
            r.spec_base() == 0,
            r.spec_bots() == self.tree().spec_bots(),
            r.spec_nodes() == self.tree().spec_nodes(),
            r.is_sorted() == self.tree().is_sorted(),
    {
        self.0.vistr()
    }

    /// A mutable iterator over the tree, starting at the root: what is written through it
    /// is written to the elements of the tree, and nothing else of the tree changes.
    pub fn vistr_mut(&mut self) -> (r: VistrMut<'_, T>)
        requires
            old(self).tree().wf(),
        ensures
            r.wf(),
            r.spec_axis() == old(self).tree().spec_axis(),
            r.spec_height() == old(self).tree().spec_height(),
            r.spec_base() == 0,
            r.spec_bots() == old(self).tree().spec_bots(),
            r.spec_nodes() == old(self).tree().spec_nodes(),
            r.is_sorted() == old(self).tree().is_sorted(),
            final(self).tree().spec_axis() == old(self).tree().spec_axis(),
            final(self).tree().spec_height() == old(self).tree().spec_height(),
            final(self).tree().spec_nodes() == old(self).tree().spec_nodes(),
            final(self).tree().is_sorted() == old(self).tree().is_sorted(),
            final(self).tree().spec_bots() == final(r.handle())@,
            final(final(self).tree().handle())@ == final(old(self).tree().handle())@,
    {
        self.0.vistr_mut()
    }
}

/// Builds a tree whose nodes' elements are not sorted.
pub struct NotSortedBuilder<'a, T>(DinoTreeBuilder<'a, T>);

impl<'a, T: HasAabb> NotSortedBuilder<'a, T> {
    /// The builder of the underlying tree.
    pub closed spec fn builder(&self) -> DinoTreeBuilder<'a, T> {
        self.0
    }

    /// Once a builder is no longer used, the elements are left as it holds them.
    pub broadcast proof fn lemma_not_sorted_builder_resolved(self)
        ensures
            #[trigger] has_resolved(self) ==> final(self.builder().handle())@ == self.builder().spec_bots(),
    {
        broadcast use DinoTreeBuilder::lemma_builder_resolved;
    }

    /// Creates a builder. The user picks the axis along which the first divider will
    /// partition.
    pub fn new(axis: Axis, bots: &'a mut [T]) -> (r: NotSortedBuilder<'a, T>)
        ensures
            r.builder().spec_axis() == axis,
            r.builder().spec_bots() == old(bots)@,
            r.builder().spec_bin_strat() == BinStrat::Checked,
            r.builder().spec_height() == crate::tree::spec_height_heuristic(old(bots)@.len(), 128),
            r.builder().spec_height_switch_seq() == 6,
            final(bots)@ == final(r.builder().handle())@,
    {
        NotSortedBuilder(DinoTreeBuilder::new(axis, bots))
    }

    /// Chooses a custom bin strategy.
    pub fn with_bin_strat(&mut self, strat: BinStrat) -> (r: &mut Self)
        ensures
            r.builder().spec_bin_strat() == strat,
            r.builder().spec_axis() == old(self).builder().spec_axis(),
            r.builder().spec_bots() == old(self).builder().spec_bots(),
            r.builder().spec_height() == old(self).builder().spec_height(),
            r.builder().spec_height_switch_seq() == old(self).builder().spec_height_switch_seq(),
            *final(self) == *final(r),
            final(r.builder().handle())@ == final(old(self).builder().handle())@,
    {
        self.0.with_bin_strat(strat);
        self
    }

    /// Chooses a custom height for the tree.
    pub fn with_height(&mut self, height: usize) -> (r: &mut Self)
        ensures
            r.builder().spec_height() == height,
            r.builder().spec_axis() == old(self).builder().spec_axis(),
            r.builder().spec_bots() == old(self).builder().spec_bots(),
            r.builder().spec_bin_strat() == old(self).builder().spec_bin_strat(),
            r.builder().spec_height_switch_seq() == old(self).builder().spec_height_switch_seq(),
            *final(self) == *final(r),
            final(r.builder().handle())@ == final(old(self).builder().handle())@,
    {
        self.0.with_height(height);
        self
    }

    /// Chooses the depth at which to switch from parallel to sequential.
    pub fn with_height_switch_seq(&mut self, height: usize) -> (r: &mut Self)
        ensures
            r.builder().spec_height_switch_seq() == height,
            r.builder().spec_axis() == old(self).builder().spec_axis(),
            r.builder().spec_bots() == old(self).builder().spec_bots(),
            r.builder().spec_bin_strat() == old(self).builder().spec_bin_strat(),
            r.builder().spec_height() == old(self).builder().spec_height(),
            *final(self) == *final(r),
            final(r.builder().handle())@ == final(old(self).builder().handle())@,
    {
        self.0.with_height_switch_seq(height);
        self
    }

    /// Builds the tree sequentially, with a splitter that is told of every node: of the
    /// start of every node, of the end of every leaf, and of the division and the joining
    /// at every non leaf node.
    pub fn build_with_splitter_seq<K: Splitter>(self, splitter: &mut K) -> (r: NotSorted<'a, T>)
        requires
            self.builder().spec_height() >= 1,
        ensures
            r.tree().wf(),
            !r.tree().is_sorted(),
            r.tree().spec_axis() == self.builder().spec_axis(),
            r.tree().spec_height() == self.builder().spec_height(),
            r.tree().spec_bots().to_multiset() == self.builder().spec_bots().to_multiset(),
            final(self.builder().handle())@ == final(r.tree().handle())@,
            crate::tree::splitter_told(*old(splitter), *final(splitter), self.builder().spec_height()),
    {
        NotSorted(self.0.build_seq_with(NoSorter, splitter))
    }

    /// Builds the tree sequentially.
    pub fn build_seq(self) -> (r: NotSorted<'a, T>)
        requires
            self.builder().spec_height() >= 1,
        ensures
            r.tree().wf(),
            !r.tree().is_sorted(),
            r.tree().spec_axis() == self.builder().spec_axis(),
            r.tree().spec_height() == self.builder().spec_height(),
            r.tree().spec_bots().to_multiset() == self.builder().spec_bots().to_multiset(),
            final(self.builder().handle())@ == final(r.tree().handle())@,
    {
        let mut splitter = SplitterEmpty;
        self.build_with_splitter_seq(&mut splitter)
    }
}

impl<'a, T: HasAabb + Send + Sync> NotSortedBuilder<'a, T> {
    /// Builds the tree, the subtrees of the top levels in parallel.
    pub fn build_par(self) -> (r: NotSorted<'a, T>)
        requires
            self.builder().spec_height() >= 1,
        ensures
            r.tree().wf(),
            !r.tree().is_sorted(),
            r.tree().spec_axis() == self.builder().spec_axis(),
            r.tree().spec_height() == self.builder().spec_height(),
            r.tree().spec_bots().to_multiset() == self.builder().spec_bots().to_multiset(),
            final(self.builder().handle())@ == final(r.tree().handle())@,
    {
        NotSorted(self.0.build_par_with(NoSorter))
    }
}

} // verus!
