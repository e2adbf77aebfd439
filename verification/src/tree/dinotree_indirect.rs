//! Building the elements of a tree that refer to objects that already have a bounding box.
use vstd::prelude::*;
use crate::bbox::BBoxIndirect;
use crate::HasAabb;

verus! {

/// Refers to every element of `bots`: what is written through the `i`th result is written
/// to the `i`th element of `bots`.
pub fn create_bbox_indirect<'a, T: HasAabb>(bots: &'a mut [T]) -> (r: Vec<BBoxIndirect<'a, T>>)
    ensures
        r@.len() == old(bots)@.len(),
        forall|i: int| 0 <= i < r@.len() ==> *(#[trigger] r@[i]).inner == old(bots)@[i],
        final(bots)@.len() == r@.len(),
        forall|i: int| 0 <= i < r@.len() ==> final(bots)@[i] == *final((#[trigger] r@[i]).inner),
{
    let ghost orig = bots@;
    let ghost fin = final(bots)@;
    let n = bots.len();
    let mut out: Vec<BBoxIndirect<'a, T>> = Vec::new();
    let mut rest: &'a mut [T] = bots;
    let mut i: usize = 0;
    while i < n
        invariant
            i <= n,
            n == orig.len(),
            rest@ == orig.subrange(i as int, n as int),
            out@.len() == i,
            forall|k: int| 0 <= k < i ==> *(#[trigger] out@[k]).inner == orig[k],
            fin.len() == i + final(rest)@.len(),
            forall|k: int| 0 <= k < i ==> fin[k] == *final((#[trigger] out@[k]).inner),
            forall|k: int| 0 <= k < final(rest)@.len() ==> fin[i + k] == final(rest)@[k],
        decreases n - i,
    {
        let cur = rest;
        let ghost fcur = final(cur)@;
        let (first, tail) = cur.split_at_mut(1);
        assert(fcur == final(first)@ + final(tail)@);
        let ghost ff = final(first)@;
        let f: &'a mut T = first.first_mut().unwrap();
        assert(ff.len() == 1 && ff[0] == *final(f));
        let ghost out_before = out@;
        let ghost ffin = *final(f);
        out.push(BBoxIndirect { inner: f });
        assert(*final(out@[i as int].inner) == ffin);
        assert(forall|k: int| 0 <= k < i ==> out@[k] == out_before[k]);
        assert(fin[i as int] == ffin) by {
            assert(fin[i + 0] == fcur[0]);
        }
        assert forall|k: int| 0 <= k < final(tail)@.len() implies fin[i + 1 + k] == final(tail)@[k] by {
            assert(fin[i + (1 + k)] == fcur[1 + k]);
        }
        rest = tail;
        i += 1;
    }
    out
}

} // verus!
