# dinotree

A space partitioning tree over axis aligned bounding boxes, with its construction
verified by Verus.

The tree is a complete binary tree whose levels alternate between dividing along the
x and the y axis. The divider of a node sits at the median of the left borders of its
elements; the elements that touch the divider belong to the node, those entirely to its
left go to the left subtree and those entirely to its right to the right subtree. The
elements of a node are sorted along the next axis, and every node records the smallest
range that covers its elements along its axis.

Building a tree permutes the caller's slice in place so that the elements of every node
are consecutive, the nodes taken in preorder.

A built tree hands out mutable access through handles (`VistrMut`, `ProtectedBBoxSlice`,
`ProtectedBBox`) whose contracts say where every write through them ends up, and which
only let the inner value of an element change, never its bounding box; the invariant of
a tree only depends on the bounding boxes of its elements.

## Layout

- `src/geom.rs`: axes, ranges and rectangles.
- `src/oned.rs`: binning around a divider, sorting along an axis, bounding ranges.
- `src/tree.rs`: the invariant of a tree (`wf_subtree`), the recursive construction,
  the builders, the tree and its visitors, and the laws about every built tree.
- `src/tree/layout.rs`: the layout of a tree only depends on the elements it is built
  over.
- `src/tree/notsorted.rs`: the variant whose nodes are not sorted.
- `src/tree/dinotree_good.rs`, `src/tree/dinotree_indirect.rs`: building the elements.
- `src/assert_invariants.rs`: a run time check that is proved equivalent to the invariant.
- `src/elem.rs`, `src/bbox.rs`: handles and containers that do not let the caller move
  elements of a built tree.
- `src/par.rs`, `src/treetimer.rs`, `src/tools.rs`: parallel/sequential switching and
  small helpers.
- `app/lib.rs`: `compt::Visitor` and `Iterator` implementations, `axgeom` conversions and
  the floating point tree health report.
