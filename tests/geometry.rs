use bellavista::geometry::{divide_rect, Rect};

#[test]
fn test_divide_rect_horizontal() {
    let source = Rect { x0: 0, y0: 0, x1: 100, y1: 100 };
    let (first, second) = divide_rect(source, 3, 10);
    assert_eq!(first, Rect { x0: 0, y0: 0, x1: 30, y1: 100 });
    assert_eq!(second, Rect { x0: 30, y0: 0, x1: 100, y1: 100 });
}

#[test]
fn test_divide_rect_vertical() {
    let source = Rect { x0: 0, y0: 0, x1: 100, y1: 200 };
    let (first, second) = divide_rect(source, 3, 10);
    assert_eq!(first, Rect { x0: 0, y0: 0, x1: 100, y1: 60 });
    assert_eq!(second, Rect { x0: 0, y0: 60, x1: 100, y1: 200 });
}

#[test]
fn divide_rect_threshold_and_edges() {
    // height 119 < 1.2 * width 100: cut across the width
    let (a, _) = divide_rect(Rect::new(0, 0, 100, 119), 1, 2);
    assert_eq!(a, Rect::new(0, 0, 50, 119));
    // height 120 == 1.2 * width 100: cut across the height
    let (b, _) = divide_rect(Rect::new(0, 0, 100, 120), 1, 2);
    assert_eq!(b, Rect::new(0, 0, 100, 60));
    let (c, d) = divide_rect(Rect::new(10, 10, 20, 20), 0, 5);
    assert_eq!(c, Rect::new(10, 10, 10, 20));
    assert_eq!(d, Rect::new(10, 10, 20, 20));
    let (e, f) = divide_rect(Rect::new(10, 10, 20, 20), 5, 5);
    assert_eq!(e, Rect::new(10, 10, 20, 20));
    assert_eq!(f, Rect::new(20, 10, 20, 20));
}

#[test]
fn rect_measures() {
    let r = Rect::new(2, 3, 7, 11);
    assert_eq!(r.width(), 5);
    assert_eq!(r.height(), 8);
    assert_eq!(r.area(), 40);
    assert!(r.contains_point(2, 3));
    assert!(!r.contains_point(7, 3));
    assert_eq!(Rect::new(0, 0, u32::MAX, u32::MAX).area(), (u32::MAX as u64) * (u32::MAX as u64));
}
