use bellavista::boxes::{layout, Boxes, FileBox};
use bellavista::color::{color_for_path, color_from_hash, Color};
use bellavista::geometry::Rect;
use bellavista::scanning::Node;
use bellavista::squarify::{row_end, squarify};

fn leaf(size: u64) -> Node {
    Node::file(format!("{}", size), size)
}

fn dir(path: &str, children: Vec<Node>) -> Node {
    Node::directory(path.to_string(), children).unwrap()
}

fn overlaps(a: &Rect, b: &Rect) -> bool {
    a.x0.max(b.x0) < a.x1.min(b.x1) && a.y0.max(b.y0) < a.y1.min(b.y1)
}

fn total_area(bs: &[FileBox]) -> u64 {
    bs.iter().map(|b| b.rect.area()).sum()
}

#[test]
fn squarify_scenario() {
    let sizes = [6, 6, 4, 3, 2, 2, 1];
    let rects = squarify(&sizes, Rect::new(0, 0, 6, 4));
    assert_eq!(rects[0], Rect::new(0, 0, 3, 2));
    assert_eq!(rects[1], Rect::new(0, 2, 3, 4));
    assert_eq!(rects[2], Rect::new(3, 0, 4, 2));
    assert_eq!(rects[3], Rect::new(4, 0, 6, 2));
    assert_eq!(rects[4], Rect::new(3, 2, 5, 3));
    assert_eq!(rects[5], Rect::new(3, 3, 5, 4));
    assert_eq!(rects[6], Rect::new(5, 2, 6, 4));
    assert_eq!(row_end(&sizes, 0, 4), 2);
}

#[test]
fn layout_scenario_through_tree() {
    let root = dir("r", vec![6, 6, 4, 3, 2, 2, 1].into_iter().map(leaf).collect());
    let bs = layout(&root, Rect::new(0, 0, 6, 4));
    assert_eq!(bs.len(), 7);
    assert_eq!(bs[0].rect, Rect::new(0, 0, 3, 2));
    assert_eq!(bs[1].rect, Rect::new(0, 2, 3, 4));
    assert_eq!(bs[0].parent, Some(Rect::new(0, 0, 6, 4)));
    assert_eq!(total_area(&bs), 24);
}

#[test]
fn single_leaf_fills_bounds() {
    let root = dir("r", vec![leaf(42)]);
    let bounds = Rect::new(3, 5, 103, 55);
    let bs = layout(&root, bounds);
    assert_eq!(bs.len(), 1);
    assert_eq!(bs[0].rect, bounds);
    assert_eq!(bs[0].path, "42");
    assert_eq!(bs[0].size, 42);
}

#[test]
fn lone_file_is_its_own_box() {
    let bounds = Rect::new(0, 0, 10, 10);
    let bs = layout(&leaf(7), bounds);
    assert_eq!(bs.len(), 1);
    assert_eq!(bs[0].rect, bounds);
    assert_eq!(bs[0].parent, None);
}

#[test]
fn equal_siblings_share_equally() {
    let root = dir("r", vec![leaf(1), leaf(1), leaf(1), leaf(1)]);
    let bs = layout(&root, Rect::new(0, 0, 4, 4));
    assert_eq!(bs.len(), 4);
    assert!(bs.iter().all(|b| b.rect.area() == 4));
    assert_eq!(total_area(&bs), 16);
}

#[test]
fn equal_siblings_round_to_the_grid() {
    let root = dir("r", vec![leaf(1), leaf(1), leaf(1)]);
    let bs = layout(&root, Rect::new(0, 0, 10, 1));
    let areas: Vec<u64> = bs.iter().map(|b| b.rect.area()).collect();
    assert_eq!(areas, vec![3, 3, 4]);
    assert_eq!(bs[2].rect, Rect::new(6, 0, 10, 1));
}

#[test]
fn empty_directory_gives_no_boxes() {
    let root = dir("r", vec![]);
    let bs = layout(&root, Rect::new(0, 0, 10, 10));
    assert!(bs.is_empty());
    let nested = dir("s", vec![leaf(5), dir("s/e", vec![])]);
    let bs = layout(&nested, Rect::new(0, 0, 10, 10));
    assert_eq!(bs.len(), 1);
    assert_eq!(bs[0].rect, Rect::new(0, 0, 10, 10));
}

fn sample_tree() -> Node {
    let a = dir("t/a", vec![leaf(120), leaf(33), leaf(33), leaf(9)]);
    let b = dir("t/b", vec![dir("t/b/c", vec![leaf(70), leaf(1)]), leaf(17), dir("t/b/e", vec![])]);
    dir("t", vec![a, leaf(250), b, leaf(3), leaf(1)])
}

#[test]
fn layout_conserves_area_and_does_not_overlap() {
    let root = sample_tree();
    let bounds = Rect::new(10, 20, 810, 620);
    let bs = layout(&root, bounds);
    assert_eq!(bs.len(), 10);
    assert_eq!(total_area(&bs), bounds.area());
    for (i, a) in bs.iter().enumerate() {
        let p = a.parent.unwrap();
        assert!(p.x0 <= a.rect.x0 && a.rect.x1 <= p.x1 && p.y0 <= a.rect.y0 && a.rect.y1 <= p.y1);
        assert!(bounds.x0 <= p.x0 && p.x1 <= bounds.x1 && bounds.y0 <= p.y0 && p.y1 <= bounds.y1);
        for b in bs.iter().skip(i + 1) {
            assert!(!overlaps(&a.rect, &b.rect));
        }
    }
    let sizes: Vec<u64> = bs.iter().map(|b| b.size).collect();
    assert_eq!(sizes, vec![250, 120, 33, 33, 9, 70, 1, 17, 3, 1]);
    assert_eq!(bs[0].path, "250");
}

#[test]
fn layout_is_deterministic() {
    let root = sample_tree();
    let bounds = Rect::new(0, 0, 333, 211);
    let a = layout(&root, bounds);
    let b = layout(&root, bounds);
    assert_eq!(a.len(), b.len());
    for (x, y) in a.iter().zip(b.iter()) {
        assert_eq!(x.rect, y.rect);
        assert_eq!(x.path, y.path);
        assert_eq!(x.parent, y.parent);
    }
}

#[test]
fn degenerate_bounds_do_not_fail() {
    let root = sample_tree();
    let bs = layout(&root, Rect::new(5, 5, 5, 50));
    assert_eq!(bs.len(), 10);
    assert!(bs.iter().all(|b| b.rect.area() == 0));
    let mut boxes = Boxes::new();
    boxes.layout_node(&root, Rect::new(0, 0, 0, 0), None);
    assert_eq!(boxes.boxes.len(), 10);
}

#[test]
fn colors_are_stable() {
    let p = String::from("/home/user/file.txt");
    let c = color_for_path(&p);
    assert_eq!(c, color_for_path(&p.clone()));
    assert_eq!(c.g, 0);
    assert_eq!(c.b, 255);
    assert_eq!(c.a, 255);
    assert!(c.r < 255);
    assert_eq!(color_from_hash(510), Color { r: 0, g: 0, b: 255, a: 255 });
    assert_eq!(color_from_hash(256), Color { r: 1, g: 0, b: 255, a: 255 });
}
