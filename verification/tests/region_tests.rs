use conway::region::Region;

#[test]
fn region_with_valid_dims() {
    let region = Region::new(1, 10, 100, 200);

    assert_eq!(region.left(), 1);
    assert_eq!(region.top(), 10);
    assert_eq!(region.height(), 200);
    assert_eq!(region.width(), 100);
    assert_eq!(region.right(), 100);
    assert_eq!(region.bottom(), 209);
}

#[test]
fn region_with_valid_dims_negative_top_and_left() {
    let region = Region::new(-1, -10, 100, 200);

    assert_eq!(region.left(), -1);
    assert_eq!(region.top(), -10);
    assert_eq!(region.height(), 200);
    assert_eq!(region.width(), 100);
    assert_eq!(region.right(), 98);
    assert_eq!(region.bottom(), 189);
}

#[test]
fn region_contains_a_valid_sub_region() {
    let region1 = Region::new(1, 10, 100, 200);
    let region2 = Region::new(-100, -200, 100, 200);

    assert!(region1.contains(50, 50));
    assert!(region2.contains(-50, -50));
}

#[test]
fn region_does_not_contain_sub_region() {
    let region1 = Region::new(1, 10, 100, 200);
    let region2 = Region::new(-100, -200, 100, 200);

    assert!(!region1.contains(-50, -50));
    assert!(!region2.contains(50, 50));
}

#[test]
fn region_no_intersection() {
    let region1 = Region::new(1, 10, 100, 200);
    let region2 = Region::new(-100, -200, 100, 200);
    assert_eq!(region1.intersection(region2), None);
    assert_eq!(region2.intersection(region1), None);
}

#[test]
fn region_intersection_with_self() {
    let region1 = Region::new(1, 10, 100, 200);
    assert_eq!(region1.intersection(region1), Some(region1));
}

#[test]
fn region_intersection_overlap() {
    let region1 = Region::new(1, 10, 100, 200);
    let region2 = Region::new(90, 120, 100, 200);
    assert_eq!(region1.intersection(region2), Some(Region::new(90, 120, 11, 90)));
}

#[test]
fn region_no_intersection_overlap_one_dim() {
    let region1 = Region::new(0, 0, 2, 2);
    let region2 = Region::new(3, 0, 2, 2);
    assert_eq!(region1.intersection(region2), None);
}
