use minecraft_schematic_utils::bounding_box::BoundingBox;

#[test]
fn bounding_box_contains_and_intersects() {
    let a = BoundingBox::new((0, 0, 0), (3, 3, 3));
    let b = BoundingBox::new((3, 3, 3), (5, 5, 5));
    let c = BoundingBox::new((4, 0, 0), (5, 1, 1));
    assert!(a.contains((0, 0, 0)));
    assert!(a.contains((3, 3, 3)));
    assert!(!a.contains((4, 0, 0)));
    assert!(!a.contains((0, -1, 0)));
    assert!(a.intersects(&b));
    assert!(b.intersects(&a));
    assert!(!a.intersects(&c));
}

#[test]
fn bounding_box_union_takes_extreme_corners() {
    let a = BoundingBox::new((0, -2, 4), (1, 1, 5));
    let b = BoundingBox::new((-3, 0, 0), (0, 7, 4));
    let u = a.union(&b);
    assert_eq!(u.min, (-3, -2, 0));
    assert_eq!(u.max, (1, 7, 5));
    assert_eq!(u, b.union(&a));
}

#[test]
fn bounding_box_raster_order_is_x_then_z_then_y() {
    let b = BoundingBox::new((10, 20, 30), (12, 21, 33));
    assert_eq!(b.get_dimensions(), (3, 2, 4));
    assert_eq!(b.volume(), 24);
    assert_eq!(b.coords_to_index(10, 20, 30), 0);
    assert_eq!(b.coords_to_index(11, 20, 30), 1);
    assert_eq!(b.coords_to_index(10, 20, 31), 3);
    assert_eq!(b.coords_to_index(10, 21, 30), 12);
    assert_eq!(b.coords_to_index(12, 21, 33), 23);
    assert_eq!(b.index_to_coords(17), (12, 21, 31));
}

#[test]
fn bounding_box_index_round_trip() {
    let b = BoundingBox::new((-2, -1, 5), (2, 1, 6));
    let volume = b.volume() as usize;
    assert_eq!(volume, 30);
    for index in 0..volume {
        let (x, y, z) = b.index_to_coords(index);
        assert!(b.contains((x, y, z)));
        assert_eq!(b.coords_to_index(x, y, z), index);
    }
    for x in -2..=2 {
        for y in -1..=1 {
            for z in 5..=6 {
                let index = b.coords_to_index(x, y, z);
                assert!(index < volume);
                assert_eq!(b.index_to_coords(index), (x, y, z));
            }
        }
    }
}

#[test]
fn bounding_box_from_position_and_size_follows_the_sign() {
    let positive = BoundingBox::from_position_and_size((1, 2, 3), (2, 3, 4));
    assert_eq!(positive.min, (1, 2, 3));
    assert_eq!(positive.max, (2, 4, 6));
    let negative = BoundingBox::from_position_and_size((1, 2, 3), (-2, -3, -4));
    assert_eq!(negative.min, (0, 0, 0));
    assert_eq!(negative.max, (1, 2, 3));
    let flat = BoundingBox::from_position_and_size((1, 2, 3), (0, 1, -1));
    assert_eq!(flat.min, (1, 2, 3));
    assert_eq!(flat.max, (1, 2, 3));
    assert_eq!(positive.to_position_and_size(), ((1, 2, 3), (2, 3, 4)));
    let edge = BoundingBox::from_position_and_size((i32::MAX, 0, i32::MIN), (1, 1, -1));
    assert_eq!(edge.min, (i32::MAX, 0, i32::MIN));
    assert_eq!(edge.max, (i32::MAX, 0, i32::MIN));
}
