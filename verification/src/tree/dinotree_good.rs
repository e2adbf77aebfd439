//! Building the elements of a tree that refer to the user's objects.
use vstd::prelude::*;
use crate::bbox::BBoxMut;
use crate::geom::Rect;

verus! {

/// Pairs every element of `bots` with the bounding box that `aabb_create` computes for it;
/// what is written through the `i`th result is written to the `i`th element of `bots`.
pub fn create_bbox_mut<'a, T, F: FnMut(&T) -> Rect>(bots: &'a mut [T], mut aabb_create: F) -> (r: Vec<BBoxMut<'a, T>>)
    requires
        forall|i: int| 0 <= i < old(bots)@.len() ==> aabb_create.requires((&old(bots)@[i],)),
    ensures
        r@.len() == old(bots)@.len(),
        forall|i: int| 0 <= i < r@.len() ==> *(#[trigger] r@[i]).inner == old(bots)@[i],
        forall|i: int| 0 <= i < r@.len() ==> aabb_create.ensures((&old(bots)@[i],), (#[trigger] r@[i]).rect),
        final(bots)@.len() == r@.len(),
        forall|i: int| 0 <= i < r@.len() ==> final(bots)@[i] == *final((#[trigger] r@[i]).inner),
{
    let ghost orig = bots@;
    let ghost f0 = aabb_create;
    let ghost fin = final(bots)@;
    let n = bots.len();
    let mut out: Vec<BBoxMut<'a, T>> = Vec::new();
    let mut rest: &'a mut [T] = bots;
    let mut i: usize = 0;
    while i < n
        invariant
            i <= n,
            aabb_create == f0,
            n == orig.len(),
            rest@ == orig.subrange(i as int, n as int),
            out@.len() == i,
            forall|k: int| 0 <= k < orig.len() ==> aabb_create.requires((&orig[k],)),
            forall|k: int| 0 <= k < i ==> *(#[trigger] out@[k]).inner == orig[k],
            forall|k: int| 0 <= k < i ==> aabb_create.ensures((&orig[k],), (#[trigger] out@[k]).rect),
            fin.len() == i + final(rest)@.len(),
            forall|k: int| 0 <= k < i ==> fin[k] == *final((#[trigger] out@[k]).inner),
            forall|k: int| 0 <= k < final(rest)@.len() ==> fin[i + k] == final(rest)@[k],
        decreases n - i,
    {
        let cur = rest;
        let ghost fcur = final(cur)@;
        let (first, tail) = cur.split_at_mut(1);
        assert(fcur == final(first)@ + final(tail)@);
        let ghost ff = final(first)@;
        let f: &'a mut T = first.first_mut().unwrap();
        assert(ff.len() == 1 && ff[0] == *final(f));
        assert(*f == orig[i as int]);
        let rect = aabb_create(&*f);
        let ghost out_before = out@;
        let ghost ffin = *final(f);
        out.push(BBoxMut { rect, inner: f });
        assert(*final(out@[i as int].inner) == ffin);
        assert(forall|k: int| 0 <= k < i ==> out@[k] == out_before[k]);
        assert(fin[i as int] == ffin) by {
            assert(fin[i + 0] == fcur[0]);
        }
        assert forall|k: int| 0 <= k < final(tail)@.len() implies fin[i + 1 + k] == final(tail)@[k] by {
            assert(fin[i + (1 + k)] == fcur[1 + k]);
        }
        rest = tail;
        i += 1;
    }
    out
}

} // verus!
