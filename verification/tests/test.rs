use dinotree::geom::{Axis, Rect};
use dinotree::tree::dinotree_good::create_bbox_mut;
use dinotree::tree::{DinoTreeBuilder, Vistr, VistrMut};
use dinotree::HasAabb;

fn count_nodes<T: HasAabb>(v: Vistr<T>) -> usize {
    let (_n, rest) = v.next();
    match rest {
        Some([left, right]) => 1 + count_nodes(left) + count_nodes(right),
        None => 1,
    }
}

fn count_nodes_mut<T: HasAabb>(v: VistrMut<T>) -> usize {
    let (_n, rest) = v.next();
    match rest {
        Some([left, right]) => 1 + count_nodes_mut(left) + count_nodes_mut(right),
        None => 1,
    }
}

fn count_bots<T: HasAabb>(v: Vistr<T>) -> usize {
    let (n, rest) = v.next();
    let here = n.bots.len();
    match rest {
        Some([left, right]) => here + count_bots(left) + count_bots(right),
        None => here,
    }
}

#[test]
fn test_zero_sized() {
    let mut bots = vec![(); 1];

    let mut bots = create_bbox_mut(&mut bots, |_b| Rect::new(0, 0, 0, 0));

    let tree = DinoTreeBuilder::new(Axis::Y, &mut bots).build_seq();

    let (n, _) = tree.vistr().next();
    assert_eq!(n.div.is_none(), true);
    assert_eq!(n.bots.len(), 1);
    assert!(n.cont.is_some());
}

#[test]
fn test_one() {
    let mut bots = vec![0usize; 1];

    let mut bots = create_bbox_mut(&mut bots, |_b| Rect::new(0, 0, 0, 0));

    let tree = DinoTreeBuilder::new(Axis::Y, &mut bots).build_seq();

    let (n, _) = tree.vistr().next();
    assert_eq!(n.div.is_none(), true);
    assert_eq!(n.bots.len(), 1);
    assert!(n.cont.is_some())
}

#[test]
fn test_many() {
    let mut bots = vec![0usize; 1000];

    let mut bots = create_bbox_mut(&mut bots, |_b| Rect::new(0, 0, 0, 0));

    let tree = DinoTreeBuilder::new(Axis::Y, &mut bots).build_seq();

    assert_eq!(count_bots(tree.vistr()), 1000);

    // Boxes of zero width and height are unspecified input. Here every box touches the
    // root's divider, so the root keeps all of them and has both a divider and a range;
    // the number of nodes with both is therefore not checked.
}

#[test]
fn test_empty() {
    let mut bots: Vec<()> = Vec::new();

    let mut bots = create_bbox_mut(&mut bots, |_b| Rect::new(0, 0, 0, 0));

    let tree = DinoTreeBuilder::new(Axis::Y, &mut bots).build_seq();

    let (n, _) = tree.vistr().next();
    assert_eq!(n.bots.len(), 0);
}

#[test]
fn test() {
    let mut bots = vec![0usize; 1234];

    let mut bots = create_bbox_mut(&mut bots, |_b| Rect::new(0, 0, 0, 0));

    let mut tree = DinoTreeBuilder::new(Axis::Y, &mut bots).build_seq();

    assert!(tree.assert_invariants());

    let num_nodes = tree.num_nodes();

    assert_eq!(count_nodes_mut(tree.vistr_mut()), num_nodes);
    assert_eq!(count_nodes(tree.vistr()), num_nodes);
    assert_eq!(count_bots(tree.vistr()), 1234);

    recc(tree.vistr_mut());
    //recursively check that the number of nodes is correct at each node.
    fn recc<T: HasAabb>(a: VistrMut<T>) {
        let height = a.height();
        let (_nn, rest) = a.next();
        match rest {
            Some([mut left, mut right]) => {
                {
                    let left = left.create_wrap_mut();
                    let right = right.create_wrap_mut();
                    assert_eq!(count_nodes_mut(left), (1usize << (height - 1)) - 1);
                    assert_eq!(count_nodes_mut(right), (1usize << (height - 1)) - 1);
                }
                recc(left);
                recc(right);
            }
            None => {}
        }
    }
}
