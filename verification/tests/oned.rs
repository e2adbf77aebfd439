use dinotree::bbox::BBox;
use dinotree::geom::{Axis, Rect};
use dinotree::oned::{bin_middle_left_right, create_cont, sweeper_update, sweeper_update_leaf};

#[test]
fn selection_sort() {
    fn selection_sort<T, B: Ord, F: FnMut(&T) -> B>(array: &mut [T], mut func: F) {
        let len = array.len();
        for i in 0..len {
            let min = i + array[i..].iter().enumerate().min_by_key(|x| func(x.1)).unwrap().0;
            println!("min={:?}", min);
            array.swap(min, i);
        }
    }
    let mut a = [5, 3, 2, 1, 4];
    selection_sort(&mut a, |a| *a);
    assert_eq!(a, [1, 2, 3, 4, 5]);
}

/// A small deterministic stream of pseudo random numbers.
struct Lcg(u64);
impl Lcg {
    fn next(&mut self) -> u64 {
        self.0 = self.0.wrapping_mul(6364136223846793005).wrapping_add(1442695040888963407);
        self.0 >> 33
    }
    fn rect(&mut self) -> Rect {
        let x = (self.next() % 1000) as isize;
        let y = (self.next() % 1000) as isize;
        let r = (self.next() % 20) as isize + 1;
        Rect::new(x - r, x + r, y - r, y + r)
    }
}

#[test]
fn test_binning() {
    let mut g = Lcg(42);
    let mut bots: Vec<BBox<usize>> = (0..100000).map(|id| BBox::new(g.rect(), id)).collect();
    let div = 500;
    let total = bots.len();
    let binned = bin_middle_left_right(Axis::X, &div, &mut bots);
    for b in binned.left.iter() {
        assert!(b.rect.x.right < div);
    }
    for b in binned.right.iter() {
        assert!(b.rect.x.left > div);
    }
    for b in binned.middle.iter() {
        let r = b.rect.x;
        assert!(r.left <= div && r.right >= div);
    }
    assert_eq!(binned.left.len() + binned.middle.len() + binned.right.len(), total);
}

#[test]
fn binning_keeps_every_element_once() {
    let mut g = Lcg(7);
    let mut bots: Vec<BBox<usize>> = (0..500).map(|id| BBox::new(g.rect(), id)).collect();
    let div = 400;
    {
        let _ = bin_middle_left_right(Axis::Y, &div, &mut bots);
    }
    let mut ids: Vec<usize> = bots.iter().map(|b| b.inner).collect();
    ids.sort();
    assert_eq!(ids, (0..500).collect::<Vec<_>>());
    // the layout is middle, then left, then right
    let class = |b: &BBox<usize>| {
        let r = b.rect.y;
        if r.left <= div && div <= r.right { 0 } else if r.right < div { 1 } else { 2 }
    };
    let classes: Vec<u8> = bots.iter().map(class).collect();
    let mut sorted_classes = classes.clone();
    sorted_classes.sort();
    assert_eq!(classes, sorted_classes);
}

#[test]
fn binning_exact_layout() {
    let mut bots = vec![
        BBox::new(Rect::new(6, 9, 0, 0), 'a'),
        BBox::new(Rect::new(0, 2, 0, 0), 'b'),
        BBox::new(Rect::new(4, 6, 0, 0), 'c'),
        BBox::new(Rect::new(5, 5, 0, 0), 'd'),
    ];
    let binned = bin_middle_left_right(Axis::X, &5, &mut bots);
    let mid: Vec<char> = binned.middle.iter().map(|b| b.inner).collect();
    let left: Vec<char> = binned.left.iter().map(|b| b.inner).collect();
    let right: Vec<char> = binned.right.iter().map(|b| b.inner).collect();
    assert_eq!(mid, vec!['c', 'd']);
    assert_eq!(left, vec!['b']);
    assert_eq!(right, vec!['a']);
}

#[test]
fn binning_rotates_the_outer_bins() {
    let mut bots = vec![
        BBox::new(Rect::new(6, 7, 0, 0), 'p'),
        BBox::new(Rect::new(8, 9, 0, 0), 'q'),
        BBox::new(Rect::new(0, 1, 0, 0), 'x'),
        BBox::new(Rect::new(4, 6, 0, 0), 'm'),
        BBox::new(Rect::new(1, 2, 0, 0), 'y'),
        BBox::new(Rect::new(5, 9, 0, 0), 'n'),
    ];
    let binned = bin_middle_left_right(Axis::X, &5, &mut bots);
    let mid: Vec<char> = binned.middle.iter().map(|b| b.inner).collect();
    let left: Vec<char> = binned.left.iter().map(|b| b.inner).collect();
    let right: Vec<char> = binned.right.iter().map(|b| b.inner).collect();
    assert_eq!(mid, vec!['m', 'n']);
    assert_eq!(left, vec!['y', 'x']);
    assert_eq!(right, vec!['p', 'q']);
}

#[test]
fn cont_is_tight_bound() {
    let bots = vec![
        BBox::new(Rect::new(3, 7, 0, 0), ()),
        BBox::new(Rect::new(-2, 1, 0, 0), ()),
        BBox::new(Rect::new(0, 12, 0, 0), ()),
    ];
    let c = create_cont(Axis::X, &bots).unwrap();
    assert_eq!(c.left, -2);
    assert_eq!(c.right, 12);
    let empty: Vec<BBox<()>> = Vec::new();
    assert!(create_cont(Axis::X, &empty).is_none());
}

#[test]
fn sweeper_sorts_by_left_border() {
    let mut g = Lcg(3);
    let mut a: Vec<BBox<usize>> = (0..300).map(|id| BBox::new(g.rect(), id)).collect();
    let mut b = a.clone();
    sweeper_update(Axis::Y, &mut a);
    sweeper_update_leaf(Axis::Y, &mut b);
    for w in a.windows(2) {
        assert!(w[0].rect.y.left <= w[1].rect.y.left);
    }
    for w in b.windows(2) {
        assert!(w[0].rect.y.left <= w[1].rect.y.left);
    }
    let mut ia: Vec<usize> = a.iter().map(|x| x.inner).collect();
    ia.sort();
    assert_eq!(ia, (0..300).collect::<Vec<_>>());
    let ka: Vec<isize> = a.iter().map(|x| x.rect.y.left).collect();
    let kb: Vec<isize> = b.iter().map(|x| x.rect.y.left).collect();
    assert_eq!(ka, kb);
}

#[test]
fn leaf_sort_is_stable() {
    let mut v = vec![
        BBox::new(Rect::new(3, 4, 0, 0), 'a'),
        BBox::new(Rect::new(1, 4, 0, 0), 'b'),
        BBox::new(Rect::new(3, 9, 0, 0), 'c'),
        BBox::new(Rect::new(1, 2, 0, 0), 'd'),
        BBox::new(Rect::new(0, 2, 0, 0), 'e'),
    ];
    sweeper_update_leaf(Axis::X, &mut v);
    let order: Vec<char> = v.iter().map(|b| b.inner).collect();
    assert_eq!(order, vec!['e', 'b', 'd', 'a', 'c']);
}
