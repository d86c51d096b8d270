use smithay::utils::Rectangle;
use smithay::wayland::compositor::{RectangleKind, RegionAttributes};

#[test]
fn region_attributes_empty() {
    let region = RegionAttributes { rects: vec![] };
    assert_eq!(region.contains((0, 0)), false);
}

#[test]
fn region_attributes_add() {
    let region = RegionAttributes {
        rects: vec![(
            RectangleKind::Add,
            Rectangle {
                x: 0,
                y: 0,
                width: 10,
                height: 10,
            },
        )],
    };

    assert_eq!(region.contains((0, 0)), true);
}

#[test]
fn region_attributes_add_subtract() {
    let region = RegionAttributes {
        rects: vec![
            (
                RectangleKind::Add,
                Rectangle {
                    x: 0,
                    y: 0,
                    width: 10,
                    height: 10,
                },
            ),
            (
                RectangleKind::Subtract,
                Rectangle {
                    x: 0,
                    y: 0,
                    width: 5,
                    height: 5,
                },
            ),
        ],
    };

    assert_eq!(region.contains((0, 0)), false);
    assert_eq!(region.contains((5, 5)), true);
}

#[test]
fn region_attributes_add_subtract_add() {
    let region = RegionAttributes {
        rects: vec![
            (
                RectangleKind::Add,
                Rectangle {
                    x: 0,
                    y: 0,
                    width: 10,
                    height: 10,
                },
            ),
            (
                RectangleKind::Subtract,
                Rectangle {
                    x: 0,
                    y: 0,
                    width: 5,
                    height: 5,
                },
            ),
            (
                RectangleKind::Add,
                Rectangle {
                    x: 2,
                    y: 2,
                    width: 2,
                    height: 2,
                },
            ),
        ],
    };

    assert_eq!(region.contains((0, 0)), false);
    assert_eq!(region.contains((5, 5)), true);
    assert_eq!(region.contains((2, 2)), true);
}

fn rect(x: i32, y: i32, width: i32, height: i32) -> Rectangle {
    Rectangle { x, y, width, height }
}

#[test]
fn rectangle_has_its_top_left_edges_only() {
    let r = rect(2, 3, 4, 5);
    assert!(r.contains((2, 3)));
    assert!(r.contains((5, 7)));
    assert!(!r.contains((6, 7)));
    assert!(!r.contains((5, 8)));
    assert!(!r.contains((1, 3)));
    assert!(!r.contains((2, 2)));
}

#[test]
fn rectangle_at_the_end_of_the_plane() {
    let r = rect(i32::MAX, i32::MAX, i32::MAX, i32::MAX);
    assert!(r.contains((i32::MAX, i32::MAX)));
    assert!(!r.contains((i32::MAX - 1, i32::MAX)));
    assert!(!r.contains((i32::MIN, i32::MIN)));
}

#[test]
fn rectangle_without_extent_is_empty() {
    assert!(!rect(0, 0, 0, 10).contains((0, 0)));
    assert!(!rect(0, 0, -5, -5).contains((-1, -1)));
    assert!(!rect(0, 0, -5, -5).contains((0, 0)));
}

#[test]
fn the_last_rectangle_that_covers_a_point_decides() {
    let region = RegionAttributes {
        rects: vec![
            (RectangleKind::Subtract, rect(0, 0, 10, 10)),
            (RectangleKind::Add, rect(0, 0, 10, 10)),
            (RectangleKind::Subtract, rect(4, 4, 2, 2)),
            (RectangleKind::Add, rect(20, 20, 1, 1)),
        ],
    };
    assert!(region.contains((0, 0)));
    assert!(!region.contains((4, 5)));
    assert!(region.contains((6, 5)));
    assert!(region.contains((20, 20)));
    assert!(!region.contains((15, 15)));
}

#[test]
fn regions_are_empty_by_default_and_cloned_whole() {
    let empty = RegionAttributes::default();
    assert_eq!(empty.rects.len(), 0);
    let region = RegionAttributes {
        rects: vec![
            (RectangleKind::Add, rect(0, 0, 10, 10)),
            (RectangleKind::Subtract, rect(0, 0, 5, 5)),
        ],
    };
    let copy = region.clone();
    assert_eq!(copy.rects, region.rects);
}
