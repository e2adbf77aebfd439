use dinotree::bbox::{BBox, BBoxMut};
use dinotree::elem::ProtectedBBoxSlice;
use dinotree::geom::{Axis, Rect};
use dinotree::par::{Depth, Joiner, ParResult, Parallel, Sequential};
use dinotree::tools::duplicate_empty_slice;
use dinotree::tree::dinotree_good::create_bbox_mut;
use dinotree::tree::dinotree_indirect::create_bbox_indirect;
use dinotree::tree::notsorted::NotSortedBuilder;
use dinotree::tree::{
    compute_default_level_switch_sequential, compute_tree_height_heuristic,
    compute_tree_height_heuristic_debug, default_level_switch_sequential, BinStrat, DinoTreeBuilder,
    Splitter, Vistr,
};
use dinotree::{HasAabb, HasInner};

struct Lcg(u64);
impl Lcg {
    fn next(&mut self) -> u64 {
        self.0 = self.0.wrapping_mul(6364136223846793005).wrapping_add(1442695040888963407);
        self.0 >> 33
    }
    fn rect(&mut self) -> Rect {
        let x = (self.next() % 2000) as isize;
        let y = (self.next() % 2000) as isize;
        let r = (self.next() % 15) as isize + 1;
        Rect::new(x - r, x + r, y - r, y + r)
    }
}

fn random_bots(n: usize, seed: u64) -> Vec<BBox<usize>> {
    let mut g = Lcg(seed);
    (0..n).map(|id| BBox::new(g.rect(), id)).collect()
}

fn ids<T: HasInner<Inner = usize>>(s: &[T]) -> Vec<usize> {
    let mut v: Vec<usize> = s.iter().map(|b| *b.get_inner().1).collect();
    v.sort();
    v
}

/// Walks the tree and checks every node's divider and bounding range by hand.
fn check_nodes<T: HasAabb>(v: Vistr<T>, axis: Axis) -> usize {
    let (n, rest) = v.next();
    let range = |b: &T, a: Axis| *b.get().get_range(a);
    if let Some(d) = *n.div {
        for b in n.bots.iter() {
            let r = range(b, axis);
            assert!(r.left <= d && d <= r.right);
        }
    }
    match n.cont {
        Some(c) => {
            assert!(!n.bots.is_empty());
            assert!(n.bots.iter().all(|b| c.left <= range(b, axis).left && range(b, axis).right <= c.right));
            assert!(n.bots.iter().any(|b| range(b, axis).left == c.left));
            assert!(n.bots.iter().any(|b| range(b, axis).right == c.right));
        }
        None => assert!(n.bots.is_empty()),
    }
    let next = if axis == Axis::X { Axis::Y } else { Axis::X };
    for w in n.bots.windows(2) {
        assert!(range(&w[0], next).left <= range(&w[1], next).left);
    }
    match rest {
        Some([l, r]) => n.bots.len() + check_nodes(l, next) + check_nodes(r, next),
        None => n.bots.len(),
    }
}

#[test]
fn height_heuristic_values() {
    assert_eq!(compute_tree_height_heuristic(0), 1);
    assert_eq!(compute_tree_height_heuristic(128), 1);
    assert_eq!(compute_tree_height_heuristic(129), 3);
    assert_eq!(compute_tree_height_heuristic(512), 3);
    assert_eq!(compute_tree_height_heuristic(513), 5);
    assert_eq!(compute_tree_height_heuristic(1000), 5);
    assert_eq!(compute_tree_height_heuristic(1234), 5);
    assert_eq!(compute_tree_height_heuristic(100_000), 11);
    assert_eq!(compute_tree_height_heuristic_debug(10, 10), 1);
    assert_eq!(compute_tree_height_heuristic_debug(11, 10), 3);
    assert_eq!(compute_tree_height_heuristic_debug(0, 0), 1);
    assert_eq!(compute_tree_height_heuristic_debug(usize::MAX, 1), 65);
}

#[test]
fn height_heuristic_matches_float_formula() {
    for n in (0..200_000usize).step_by(97) {
        let per = 128;
        let expected = if n <= per {
            1
        } else {
            let a = n as f32 / per as f32;
            let b = a.log2() / 2.0;
            (b.ceil() as usize) * 2 + 1
        };
        assert_eq!(compute_tree_height_heuristic(n), expected, "n={}", n);
    }
}

#[test]
fn level_switch() {
    assert_eq!(default_level_switch_sequential(), 6);
    assert_eq!((compute_default_level_switch_sequential(6, 10).0).0, 4);
    assert_eq!((compute_default_level_switch_sequential(6, 3).0).0, 0);
    assert_eq!((compute_default_level_switch_sequential(6, 6).0).0, 0);
}

#[test]
fn joiners() {
    match Parallel::new(Depth(3)).next(Depth(0)) {
        ParResult::Parallel([a, b]) => {
            assert_eq!((a.0).0, 3);
            assert_eq!((b.0).0, 3);
            // the children stay parallel below the switch depth
            assert!(matches!(a.next(Depth(2)), ParResult::Parallel(_)));
            assert!(matches!(b.next(Depth(3)), ParResult::Sequential(_)));
        }
        ParResult::Sequential(_) => panic!("expected parallel"),
    }
    assert!(matches!(Parallel::new(Depth(3)).next(Depth(3)), ParResult::Sequential(_)));
    assert!(matches!(Sequential.next(Depth(0)), ParResult::Sequential(_)));
}

#[test]
fn build_keeps_elements_and_invariants() {
    let mut bots = random_bots(5000, 11);
    let tree = DinoTreeBuilder::new(Axis::X, &mut bots).build_seq();
    assert!(tree.assert_invariants());
    assert_eq!(tree.get_height(), 7);
    assert_eq!(tree.num_nodes(), 127);
    assert_eq!(tree.num_bots(), 5000);
    assert_eq!(tree.axis(), Axis::X);
    assert_eq!(check_nodes(tree.vistr(), Axis::X), 5000);
    drop(tree);
    assert_eq!(ids(&bots), (0..5000).collect::<Vec<_>>());
}

#[test]
fn root_divider_is_median() {
    let mut bots = random_bots(1001, 5);
    let mut lefts: Vec<isize> = bots.iter().map(|b| b.rect.y.left).collect();
    lefts.sort();
    let tree = DinoTreeBuilder::new(Axis::Y, &mut bots).build_seq();
    let (root, _) = tree.vistr().next();
    assert_eq!(*root.div, Some(lefts[1001 / 2]));
}

#[test]
fn subtrees_are_left_and_right_of_divider() {
    let mut bots = random_bots(3000, 99);
    let tree = DinoTreeBuilder::new(Axis::X, &mut bots).build_seq();
    let (root, rest) = tree.vistr().next();
    let d = root.div.unwrap();
    let [l, r] = rest.unwrap();
    fn all_bots<T: HasAabb>(v: Vistr<T>, out: &mut Vec<Rect>) {
        let (n, rest) = v.next();
        out.extend(n.bots.iter().map(|b| *b.get()));
        if let Some([a, b]) = rest {
            all_bots(a, out);
            all_bots(b, out);
        }
    }
    let mut left = Vec::new();
    let mut right = Vec::new();
    all_bots(l, &mut left);
    all_bots(r, &mut right);
    assert!(left.iter().all(|r| r.x.right < d));
    assert!(right.iter().all(|r| r.x.left > d));
}

#[test]
fn custom_height_and_strategy() {
    let mut bots = random_bots(700, 1);
    let mut builder = DinoTreeBuilder::new(Axis::Y, &mut bots);
    builder.with_height(4).with_bin_strat(BinStrat::NotChecked).with_height_switch_seq(2);
    let tree = builder.build_seq();
    assert_eq!(tree.get_height(), 4);
    assert_eq!(tree.num_nodes(), 15);
    assert!(tree.assert_invariants());
}

#[test]
fn parallel_build_gives_a_valid_tree() {
    let mut a = random_bots(20000, 8);
    let mut b = a.clone();
    let t1 = DinoTreeBuilder::new(Axis::X, &mut a).build_par();
    assert!(t1.assert_invariants());
    let t2 = DinoTreeBuilder::new(Axis::X, &mut b).build_seq();
    assert!(t2.assert_invariants());
    assert_eq!(check_nodes(t1.vistr(), Axis::X), 20000);
    drop(t1);
    drop(t2);
    assert_eq!(ids(&a), ids(&b));
}

#[test]
fn not_sorted_tree() {
    let mut bots = random_bots(2000, 77);
    let tree = NotSortedBuilder::new(Axis::X, &mut bots).build_seq();
    assert_eq!(tree.axis(), Axis::X);
    let mut count = 0;
    fn walk<T: HasAabb>(v: Vistr<T>, count: &mut usize) {
        let (n, rest) = v.next();
        *count += n.bots.len();
        if let Some([a, b]) = rest {
            walk(a, count);
            walk(b, count);
        }
    }
    walk(tree.vistr(), &mut count);
    assert_eq!(count, 2000);
    let mut bots2 = random_bots(2000, 77);
    let tree2 = NotSortedBuilder::new(Axis::X, &mut bots2).build_par();
    let mut count2 = 0;
    walk(tree2.vistr(), &mut count2);
    assert_eq!(count2, 2000);
}

struct CountingSplitter {
    starts: usize,
    ends: usize,
    divs: usize,
    adds: usize,
}
impl Splitter for CountingSplitter {
    fn div(&mut self) -> Self {
        self.divs += 1;
        CountingSplitter { starts: 0, ends: 0, divs: 0, adds: 0 }
    }
    fn add(&mut self, b: Self) {
        self.starts += b.starts;
        self.ends += b.ends;
        self.divs += b.divs;
        self.adds += b.adds + 1;
    }
    fn node_start(&mut self) {
        self.starts += 1;
    }
    fn node_end(&mut self) {
        self.ends += 1;
    }
}

#[test]
fn splitter_sees_every_node() {
    let mut bots = random_bots(1000, 4);
    let mut s = CountingSplitter { starts: 0, ends: 0, divs: 0, adds: 0 };
    let tree = DinoTreeBuilder::new(Axis::X, &mut bots).build_with_splitter_seq(&mut s);
    let h = tree.get_height();
    assert_eq!(s.starts, tree.num_nodes());
    assert_eq!(s.starts, (1usize << h) - 1);
    assert_eq!(s.ends, 1usize << (h - 1));
    assert_eq!(s.divs, (1usize << (h - 1)) - 1);
    assert_eq!(s.adds, (1usize << (h - 1)) - 1);
}

struct RecordingSplitter(Vec<char>);
impl Splitter for RecordingSplitter {
    fn div(&mut self) -> Self {
        self.0.push('D');
        RecordingSplitter(Vec::new())
    }
    fn add(&mut self, b: Self) {
        self.0.push('A');
        self.0.extend(b.0);
    }
    fn node_start(&mut self) {
        self.0.push('S');
    }
    fn node_end(&mut self) {
        self.0.push('E');
    }
}

fn expected_trace(h: usize) -> Vec<char> {
    if h == 1 {
        vec!['S', 'E']
    } else {
        let t = expected_trace(h - 1);
        let mut out = vec!['S', 'D'];
        out.extend(t.iter().copied());
        out.push('A');
        out.extend(t.iter().copied());
        out
    }
}

#[test]
fn splitter_callbacks_come_in_preorder() {
    let mut bots = random_bots(2000, 8);
    let mut s = RecordingSplitter(Vec::new());
    let tree = DinoTreeBuilder::new(Axis::Y, &mut bots).build_with_splitter_seq(&mut s);
    assert_eq!(s.0, expected_trace(tree.get_height()));
}

#[test]
fn aabb_closure_may_keep_state() {
    let mut values = vec![0u8; 5];
    let mut calls = 0isize;
    let boxes = create_bbox_mut(&mut values, |_v| {
        calls += 1;
        Rect::new(calls, calls + 1, 0, 1)
    });
    let lefts: Vec<isize> = boxes.iter().map(|b| b.rect.x.left).collect();
    assert_eq!(lefts, vec![1, 2, 3, 4, 5]);
}

#[test]
fn mutating_inner_keeps_tree_valid() {
    let mut values: Vec<u32> = (0..400).collect();
    let mut g = Lcg(13);
    let rects: Vec<Rect> = (0..400).map(|_| g.rect()).collect();
    let mut bots = create_bbox_mut(&mut values, |v| rects[*v as usize]);
    let mut tree = DinoTreeBuilder::new(Axis::X, &mut bots).build_seq();
    fn bump(v: dinotree::tree::VistrMut<BBoxMut<u32>>) {
        let (n, rest) = v.next();
        let mut it = n.bots.iter_mut();
        while let Some(mut b) = it.next() {
            let (_r, inner) = b.get_inner_mut();
            *inner += 1000;
        }
        if let Some([a, c]) = rest {
            bump(a);
            bump(c);
        }
    }
    bump(tree.vistr_mut());
    assert!(tree.assert_invariants());
    drop(tree);
    drop(bots);
    let mut sorted = values.clone();
    sorted.sort();
    assert_eq!(sorted, (1000..1400).collect::<Vec<_>>());
}

#[test]
fn indirect_elements() {
    let mut items: Vec<BBox<char>> = vec![
        BBox::new(Rect::new(0, 1, 0, 1), 'a'),
        BBox::new(Rect::new(5, 6, 5, 6), 'b'),
        BBox::new(Rect::new(2, 3, 2, 3), 'c'),
    ];
    let mut ind = create_bbox_indirect(&mut items);
    assert_eq!(ind.len(), 3);
    let tree = DinoTreeBuilder::new(Axis::Y, &mut ind).build_seq();
    assert!(tree.assert_invariants());
    assert_eq!(tree.num_bots(), 3);
}

#[test]
fn protected_slice_operations() {
    let mut v = vec![10, 20, 30, 40, 50];
    let s = ProtectedBBoxSlice::new(&mut v);
    assert_eq!(s.len(), 5);
    let s = s.truncate(1, 4);
    assert_eq!(s.len(), 3);
    let s = s.truncate_from(1);
    assert_eq!(s.as_slice(), &[30, 40]);
    let s = ProtectedBBoxSlice::new(&mut v).truncate_to(2);
    let (first, rest) = s.split_first_mut().unwrap();
    assert_eq!(*first.as_ref(), 10);
    assert_eq!(rest.as_slice(), &[20]);
    let collected: Vec<i32> = ProtectedBBoxSlice::new(&mut v).iter().copied().collect();
    assert_eq!(collected, vec![10, 20, 30, 40, 50]);
    let empty: Vec<i32> = Vec::new();
    let mut empty = empty;
    assert!(ProtectedBBoxSlice::new(&mut empty).split_first_mut().is_none());
}

#[test]
fn empty_slice_duplicates() {
    let mut v: Vec<u8> = Vec::new();
    let (a, b) = duplicate_empty_slice(&mut v);
    assert!(a.is_empty() && b.is_empty());
}

#[test]
fn inner_mut_keeps_rect() {
    let mut b = BBox::new(Rect::new(1, 2, 3, 4), 5u8);
    {
        let (r, inner) = b.get_inner_mut();
        assert_eq!(*r, Rect::new(1, 2, 3, 4));
        *inner = 9;
    }
    assert_eq!(b.inner, 9);
    assert_eq!(*b.get(), Rect::new(1, 2, 3, 4));
}

fn node_layout<T: HasAabb>(v: Vistr<T>, out: &mut Vec<(usize, Option<isize>, Option<(isize, isize)>)>) {
    let (n, rest) = v.next();
    out.push((n.bots.len(), *n.div, n.cont.map(|c| (c.left, c.right))));
    if let Some([a, b]) = rest {
        node_layout(a, out);
        node_layout(b, out);
    }
}

#[test]
fn layout_only_depends_on_the_elements() {
    let mut a = random_bots(9000, 21);
    let mut b = a.clone();
    b.reverse();
    let mut c = a.clone();
    let t1 = DinoTreeBuilder::new(Axis::Y, &mut a).build_seq();
    let t2 = DinoTreeBuilder::new(Axis::Y, &mut b).build_par();
    let t3 = NotSortedBuilder::new(Axis::Y, &mut c).build_seq();
    let mut l1 = Vec::new();
    let mut l2 = Vec::new();
    let mut l3 = Vec::new();
    node_layout(t1.vistr(), &mut l1);
    node_layout(t2.vistr(), &mut l2);
    node_layout(t3.vistr(), &mut l3);
    assert_eq!(l1, l2);
    assert_eq!(l1, l3);
    let mut e1 = Vec::new();
    let mut e2 = Vec::new();
    let mut e3 = Vec::new();
    node_elements(t1.vistr(), &mut e1);
    node_elements(t2.vistr(), &mut e2);
    node_elements(t3.vistr(), &mut e3);
    assert_eq!(e1, e2);
    assert_eq!(e1, e3);
}

/// The ids of the elements of every node, in preorder, each node's ids sorted.
fn node_elements(v: Vistr<BBox<usize>>, out: &mut Vec<Vec<usize>>) {
    let (n, rest) = v.next();
    let mut ids: Vec<usize> = n.bots.iter().map(|b| b.inner).collect();
    ids.sort();
    out.push(ids);
    if let Some([a, b]) = rest {
        node_elements(a, out);
        node_elements(b, out);
    }
}

#[test]
fn nodes_partition_the_elements() {
    let mut bots = random_bots(3333, 2);
    let tree = DinoTreeBuilder::new(Axis::X, &mut bots).build_seq();
    let mut l = Vec::new();
    node_layout(tree.vistr(), &mut l);
    assert_eq!(l.len(), (1 << tree.get_height()) - 1);
    assert_eq!(l.iter().map(|x| x.0).sum::<usize>(), 3333);
}

#[test]
fn nonempty_subtree_has_nonempty_root() {
    let mut bots = random_bots(4000, 31);
    let tree = DinoTreeBuilder::new(Axis::X, &mut bots).build_seq();
    fn walk<T: HasAabb>(v: Vistr<T>) -> usize {
        let (n, rest) = v.next();
        match rest {
            Some([a, b]) => {
                let below = walk(a) + walk(b);
                if below + n.bots.len() > 0 {
                    assert!(n.bots.len() > 0);
                    assert!(n.div.is_some() && n.cont.is_some());
                }
                below + n.bots.len()
            }
            None => n.bots.len(),
        }
    }
    assert_eq!(walk(tree.vistr()), 4000);
}

#[test]
fn subtrees_hold_at_most_half() {
    let mut bots = random_bots(6000, 17);
    let tree = DinoTreeBuilder::new(Axis::X, &mut bots).build_seq();
    fn walk<T: HasAabb>(v: Vistr<T>) -> usize {
        let (n, rest) = v.next();
        match rest {
            Some([a, b]) => {
                let l = walk(a);
                let r = walk(b);
                let total = n.bots.len() + l + r;
                assert!(l <= total / 2);
                assert!(r <= total / 2);
                total
            }
            None => n.bots.len(),
        }
    }
    assert_eq!(walk(tree.vistr()), 6000);
}

#[test]
fn bots_per_level_counts_each_depth() {
    let mut bots = random_bots(3000, 21);
    let mut builder = DinoTreeBuilder::new(Axis::X, &mut bots);
    builder.with_height(4);
    let tree = builder.build_seq();
    let levels = tree.vistr().bots_per_level();
    assert_eq!(levels.len(), 4);
    assert_eq!(levels.iter().sum::<usize>(), 3000);
    let (root, _) = tree.vistr().next();
    assert_eq!(levels[0], root.bots.len());
    assert!(tree.assert_invariants());
}
