use grid::{Area, GridDimension};

#[test]
fn test_area_elements() {
    assert_eq!(Area::new(0, 0, 0, 0).area(), 1);
    assert_eq!(Area::new(999, 999, 999, 999).area(), 1);
    assert_eq!(Area::new(0, 0, 999, 999).area(), 1_000_000);
    assert_eq!(Area::new(999, 999, 0, 0).area(), 1_000_000);
    assert_eq!(Area::new(959, 489, 964, 759).area(), 1626);
}

#[test]
fn test_area_correctness() {
    assert_eq!(Area::new(0, 0, 0, 0), Area::new(0, 0, 0, 0));
    assert_eq!(Area::new(0, 0, 9, 9), Area::new(9, 9, 0, 0));

    let area = Area::new(9, 9, 0, 0);
    assert_eq!(area.top, 0);
    assert_eq!(area.left, 0);
    assert_eq!(area.bottom, 9);
    assert_eq!(area.right, 9);
}

#[test]
fn area_from_grid_dim() {
    let area = Area::from(GridDimension::from((10, 10)));
    assert_eq!(area, Area::new(0, 0, 9, 9));
}

#[test]
fn area_width_height_and_count() {
    let area = Area::new(964, 759, 959, 489);
    assert_eq!(area.width(), 271);
    assert_eq!(area.height(), 6);
    assert_eq!(area.area(), area.width() * area.height());
}

#[test]
fn area_corner_order_does_not_matter() {
    let expected = Area::new(2, 3, 7, 8);
    assert_eq!(Area::new(7, 3, 2, 8), expected);
    assert_eq!(Area::new(2, 8, 7, 3), expected);
    assert_eq!(Area::new(7, 8, 2, 3), expected);
    assert_eq!(expected.top, 2);
    assert_eq!(expected.left, 3);
    assert_eq!(expected.bottom, 7);
    assert_eq!(expected.right, 8);
}

#[test]
fn area_from_empty_dimension_is_rejected_by_rectify() {
    let dim = GridDimension::new(0, 0);
    let area = Area::from(dim);
    assert_eq!(area, Area::new(0, 0, 0, 0));
    assert_eq!(dim.rectify(area), None);
}

#[test]
fn dimension_from_pair() {
    let dim = GridDimension::from((7, 4));
    assert_eq!(dim.width(), 7);
    assert_eq!(dim.height(), 4);
    assert_eq!(Area::from(dim), Area::new(0, 0, 3, 6));
}
