use procedure_crafter::internal::block::InputRememberer;
use procedure_crafter::internal::ID;
use procedure_crafter::logic::{closest_within, get_closest_input, LogicAccurate};
use procedure_crafter::render::{circle_pixels, circle_points, RenderSettingsFast, RenderSettingsPretty};

#[test]
fn closest_input_prefers_smaller_distance() {
    let inner = InputRememberer { internal_inputs: vec![(0, None, Some(3))], own_id: ID::from(2) };
    let outer = InputRememberer {
        internal_inputs: vec![(0, None, Some(5)), (1, Some(inner), Some(100))],
        own_id: ID::from(1),
    };
    let (path, distance) = get_closest_input(outer);
    assert_eq!(distance, 3);
    assert_eq!(path, vec![(ID::from(1), 1), (ID::from(2), 0)]);
}

#[test]
fn closest_input_first_wins_ties() {
    let ir = InputRememberer {
        internal_inputs: vec![(0, None, Some(4)), (1, None, Some(4)), (2, None, Some(9))],
        own_id: ID::from(7),
    };
    let (path, distance) = get_closest_input(ir);
    assert_eq!(distance, 4);
    assert_eq!(path, vec![(ID::from(7), 0)]);
}

#[test]
fn closest_input_of_nothing() {
    let ir = InputRememberer { internal_inputs: vec![], own_id: ID::from(1) };
    let (path, distance) = get_closest_input(ir);
    assert!(path.is_empty());
    assert_eq!(distance, u64::MAX);
}

#[test]
fn holes() {
    let logic = LogicAccurate::new();
    let holes = [(1isize, 1isize, 40isize, 20isize)];
    assert!(logic.is_in_any_hole(1, 1, &holes));
    assert!(logic.is_in_any_hole(39, 19, &holes));
    assert!(!logic.is_in_any_hole(40, 5, &holes));
    assert!(!logic.is_in_any_hole(0, 5, &holes));
    assert!(!logic.is_in_any_hole(5, 20, &holes));
    assert!(!logic.is_in_any_hole(5, 5, &[]));
}

#[test]
fn brightness_adjustment_clamps() {
    let r = RenderSettingsFast::new();
    assert_eq!(r.adjust_brightness(0x00102030, 50), 0x00425262);
    assert_eq!(r.adjust_brightness(0xFF10F0FF, 50), 0x0042FFFF);
    assert_eq!(r.adjust_brightness(0x00102030, -40), 0x00000008);
    assert_eq!(r.adjust_brightness(0xAB123456, 0), 0x00123456);
}

#[test]
fn blending_pixels() {
    let r = RenderSettingsPretty::new();
    assert_eq!(r.blend_pixel(0x11223344, 0xAABBCCDD, 255), 0xAABBCCDD);
    assert_eq!(r.blend_pixel(0x11223344, 0xAABBCCDD, 0), 0x11223344);
    assert_eq!(r.blend_pixel(0x00000000, 0xFFFFFFFF, 128), 0x80808080);
    assert_eq!(r.blend_pixel(0xFF000000, 0x00FF0000, 51), 0xCC330000);
}

#[test]
fn circle_offsets() {
    assert!(circle_points(0).is_empty());
    assert!(circle_points(-3).is_empty());
    assert_eq!(circle_points(1), vec![(0, -1)]);
    assert_eq!(circle_points(5), vec![(0, -5), (1, -5), (2, -5), (3, -4)]);
    let points = circle_points(10);
    for (k, (x, y)) in points.iter().enumerate() {
        assert_eq!(*x, k as isize);
        assert!(*x <= -*y && *y >= -10 && *y <= 0);
    }
}

#[test]
fn closest_within_picks_first_smallest() {
    let keys = vec![Some(7), None, Some(3), Some(3), Some(9)];
    assert_eq!(closest_within(&keys, 10, None), Some(2));
    assert_eq!(closest_within(&keys, 3, None), None);
    assert_eq!(closest_within(&keys, 4, Some(2)), Some(3));
    assert_eq!(closest_within(&keys, u64::MAX, Some(0)), Some(2));
    assert_eq!(closest_within(&[], 10, None), None);
    assert_eq!(closest_within(&[Some(u64::MAX)], u64::MAX, None), None);
}

#[test]
fn circle_pixels_mirror_eight_ways() {
    assert!(circle_pixels(5, 5, 0).is_empty());
    assert_eq!(
        circle_pixels(10, 20, 1),
        vec![(10, 19), (10, 19), (10, 21), (10, 21), (9, 20), (9, 20), (11, 20), (11, 20)]
    );
    let pixels = circle_pixels(100, 100, 5);
    assert_eq!(pixels.len(), 8 * circle_points(5).len());
    assert_eq!(&pixels[8..16], &[(101, 95), (99, 95), (101, 105), (99, 105), (95, 101), (95, 99), (105, 101), (105, 99)]);
    let wrapped = circle_pixels(0, 0, 1);
    assert_eq!(wrapped[0], (0, usize::MAX));
    assert_eq!(wrapped[2], (0, 1));
}
