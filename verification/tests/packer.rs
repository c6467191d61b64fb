use rand::rngs::StdRng;
use rand::{Rng, SeedableRng};
use tetris_graphics::packer::{Node, Rectangle};
use tetris_graphics::vec2::Vec2;

fn overlap(a: &Rectangle, b: &Rectangle) -> bool {
    a.x < b.x + b.w && b.x < a.x + a.w && a.y < b.y + b.h && b.y < a.y + a.h
}

fn rect(x: u32, y: u32, w: u32, h: u32) -> Rectangle {
    Rectangle { x, y, w, h }
}

#[test]
fn texture_pack() {
    let mut root = Node::new(Vec2::default(), Vec2::<u32> { x: 100, y: 100 });
    let mut nodes = vec![Vec2::<u32>::new(20, 30)];
    let mut cur = 1;

    assert!(root.pack(&nodes[0]).is_some());

    // A fixed seed, so that every run packs the same rectangles.
    let mut rng = StdRng::seed_from_u64(0x7e7215);
    for _ in 0..30 {
        nodes.push(Vec2::<u32>::new(rng.gen_range(10..40), rng.gen_range(10..40)));
    }

    while cur < nodes.len() {
        if cur < 5 {
            assert!(root.pack(&nodes[cur]).is_some());
        } else if root.pack(&nodes[cur]).is_none() {
            println!("Filled at {} nodes", cur);
            break;
        }
        cur += 1;
    }
}

#[test]
fn first_placement_is_the_top_left_corner() {
    let mut root = Node::new(Vec2::new(0, 0), Vec2::new(100, 100));
    assert_eq!(root.pack(&Vec2::new(20, 30)), Some(rect(0, 0, 20, 30)));
}

#[test]
fn wider_slack_cuts_a_column_and_the_rest_goes_below() {
    // 100 x 100 minus 20 x 30 leaves 80 beside and 70 below: the column is
    // cut first, so the next free region is the one below the request.
    let mut root = Node::new(Vec2::new(0, 0), Vec2::new(100, 100));
    assert_eq!(root.pack(&Vec2::new(20, 30)), Some(rect(0, 0, 20, 30)));
    assert_eq!(root.pack(&Vec2::new(20, 70)), Some(rect(0, 30, 20, 70)));
    assert_eq!(root.pack(&Vec2::new(80, 100)), Some(rect(20, 0, 80, 100)));
    assert_eq!(root.pack(&Vec2::new(1, 1)), None);
}

#[test]
fn higher_slack_cuts_a_row_and_the_rest_goes_beside() {
    let mut root = Node::new(Vec2::new(0, 0), Vec2::new(100, 100));
    assert_eq!(root.pack(&Vec2::new(30, 20)), Some(rect(0, 0, 30, 20)));
    assert_eq!(root.pack(&Vec2::new(70, 20)), Some(rect(30, 0, 70, 20)));
    assert_eq!(root.pack(&Vec2::new(100, 80)), Some(rect(0, 20, 100, 80)));
    assert_eq!(root.pack(&Vec2::new(1, 1)), None);
}

#[test]
fn equal_slack_cuts_a_row() {
    let mut root = Node::new(Vec2::new(0, 0), Vec2::new(10, 10));
    assert_eq!(root.pack(&Vec2::new(4, 4)), Some(rect(0, 0, 4, 4)));
    assert_eq!(root.pack(&Vec2::new(6, 4)), Some(rect(4, 0, 6, 4)));
    assert_eq!(root.pack(&Vec2::new(10, 6)), Some(rect(0, 4, 10, 6)));
}

#[test]
fn exact_fit_takes_the_whole_leaf_where_it_lies() {
    let mut root = Node::new(Vec2::new(7, 9), Vec2::new(64, 32));
    assert_eq!(root.pack(&Vec2::new(64, 32)), Some(rect(7, 9, 64, 32)));
    // The leaf is filled: nothing else goes in, not even an empty request.
    assert_eq!(root.pack(&Vec2::new(1, 1)), None);
    assert_eq!(root.pack(&Vec2::new(0, 0)), None);
    assert_eq!(root.pack(&Vec2::new(64, 32)), None);
}

#[test]
fn exact_fit_of_a_leftover_leaf() {
    let mut root = Node::new(Vec2::new(0, 0), Vec2::new(100, 100));
    assert!(root.pack(&Vec2::new(20, 30)).is_some());
    // The region beside the first column is free and 80 x 100.
    assert_eq!(root.pack(&Vec2::new(80, 100)), Some(rect(20, 0, 80, 100)));
}

#[test]
fn oversize_request_fails_at_once() {
    let mut root = Node::new(Vec2::new(0, 0), Vec2::new(100, 100));
    assert_eq!(root.pack(&Vec2::new(101, 1)), None);
    assert_eq!(root.pack(&Vec2::new(1, 101)), None);
    assert_eq!(root.pack(&Vec2::new(101, 101)), None);
    // The refusals left the leaf as it was.
    assert_eq!(root.pack(&Vec2::new(100, 100)), Some(rect(0, 0, 100, 100)));
}

#[test]
fn fifteen_rectangles_of_20_by_30_fill_100_by_100() {
    let mut root = Node::new(Vec2::new(0, 0), Vec2::new(100, 100));
    let mut placed = Vec::new();
    while let Some(r) = root.pack(&Vec2::new(20, 30)) {
        placed.push(r);
        assert!(placed.len() <= 100);
    }
    assert_eq!(placed.len(), 15);
    let expected = [
        (0, 0), (0, 30), (0, 60), (20, 0), (40, 0), (60, 0), (80, 0), (20, 30),
        (20, 60), (40, 30), (60, 30), (80, 30), (40, 60), (60, 60), (80, 60),
    ];
    for (r, (x, y)) in placed.iter().zip(expected.iter()) {
        assert_eq!(*r, rect(*x, *y, 20, 30));
    }
    // Once the packer has refused, it keeps refusing the same request.
    assert_eq!(root.pack(&Vec2::new(20, 30)), None);
}

#[test]
fn placements_never_overlap() {
    let mut root = Node::new(Vec2::new(0, 0), Vec2::new(128, 128));
    let sizes = [
        (30, 40), (17, 5), (64, 64), (1, 1), (50, 20), (20, 50), (9, 90), (33, 33), (128, 3),
        (5, 5), (40, 40), (12, 70), (70, 12), (2, 100), (60, 60), (8, 8), (25, 25),
    ];
    let mut placed: Vec<Rectangle> = Vec::new();
    for round in 0..6 {
        for (w, h) in sizes.iter() {
            if let Some(r) = root.pack(&Vec2::new(*w + round, *h)) {
                assert_eq!((r.w, r.h), (*w + round, *h));
                assert!(r.x + r.w <= 128 && r.y + r.h <= 128);
                for p in placed.iter() {
                    assert!(!overlap(p, &r), "{:?} overlaps {:?}", p, r);
                }
                placed.push(r);
            }
        }
    }
    assert!(placed.len() > sizes.len());
}

#[test]
fn a_filled_leaf_is_never_handed_out_again() {
    let mut root = Node::new(Vec2::new(0, 0), Vec2::new(40, 40));
    let first = root.pack(&Vec2::new(40, 10)).unwrap();
    assert_eq!(first, rect(0, 0, 40, 10));
    let mut later = Vec::new();
    for (w, h) in [(40, 10), (10, 10), (40, 10), (1, 1), (30, 10), (40, 10), (5, 5)] {
        if let Some(r) = root.pack(&Vec2::new(w, h)) {
            later.push(r);
        }
    }
    assert_eq!(later[0], rect(0, 10, 40, 10));
    assert!(later.len() >= 5);
    for r in later.iter() {
        assert!(!overlap(&first, r));
        assert!(r.y >= 10);
    }
}

#[test]
fn empty_requests_are_placed_without_taking_room() {
    let mut root = Node::new(Vec2::new(0, 0), Vec2::new(10, 10));
    assert_eq!(root.pack(&Vec2::new(0, 0)), Some(rect(0, 0, 0, 0)));
    assert_eq!(root.pack(&Vec2::new(0, 0)), Some(rect(0, 0, 0, 0)));
    assert_eq!(root.pack(&Vec2::new(10, 10)), Some(rect(0, 0, 10, 10)));
}

#[test]
fn a_packer_may_start_anywhere() {
    let mut root = Node::new(Vec2::new(u32::MAX - 10, 5), Vec2::new(10, 10));
    assert_eq!(root.pack(&Vec2::new(4, 10)), Some(rect(u32::MAX - 10, 5, 4, 10)));
    assert_eq!(root.pack(&Vec2::new(6, 10)), Some(rect(u32::MAX - 6, 5, 6, 10)));
}

#[test]
fn a_packer_keeps_its_region() {
    let mut root = Node::new(Vec2::new(3, 4), Vec2::new(50, 60));
    assert_eq!((root.pos(), root.size()), (Vec2::new(3, 4), Vec2::new(50, 60)));
    assert!(root.pack(&Vec2::new(10, 10)).is_some());
    assert_eq!((root.pos(), root.size()), (Vec2::new(3, 4), Vec2::new(50, 60)));
}
