use ray_accel::common::{INFINITY, PARAM_SCALE};
use ray_accel::geometry::{Bounds3f, Point3, Ray, Vector3};

fn unit_box() -> Bounds3f {
    Bounds3f::init(&Point3::new(-1, -1, -1), &Point3::new(1, 1, 1))
}

fn ray(o: (i32, i32, i32), d: (i64, i64, i64), t_max: Option<i64>) -> Ray {
    Ray::init(&Point3::new(o.0, o.1, o.2), &Vector3::new(d.0, d.1, d.2), t_max, None, None)
}

fn flags(d: (i64, i64, i64)) -> [usize; 3] {
    [(d.0 < 0) as usize, (d.1 < 0) as usize, (d.2 < 0) as usize]
}

#[test]
fn box_hit_reports_parameter_range() {
    let b = unit_box();
    let r = ray((5, 0, 0), (-1, 0, 0), None);
    let mut t0: i64 = -7;
    let mut t1: i64 = -7;
    assert!(b.intersect_p(&r, &mut t0, &mut t1));
    assert_eq!(t0, 4 * PARAM_SCALE);
    assert_eq!(t1, 6 * PARAM_SCALE);
    assert!(b.intersect_p_with_inv(&r, [1, 0, 0]));
}

#[test]
fn box_behind_ray_is_missed() {
    let b = unit_box();
    let r = ray((5, 0, 0), (1, 0, 0), None);
    let mut t0: i64 = -7;
    let mut t1: i64 = -7;
    assert!(!b.intersect_p(&r, &mut t0, &mut t1));
    assert_eq!(t0, -7);
    assert_eq!(t1, -7);
    assert!(!b.intersect_p_with_inv(&r, [0, 0, 0]));
}

#[test]
fn slab_test_respects_t_max() {
    let b = unit_box();
    // the box begins at parameter 4: a ray that ends there does not reach it
    let short = ray((5, 0, 0), (-1, 0, 0), Some(4 * PARAM_SCALE));
    assert!(!b.intersect_p_with_inv(&short, [1, 0, 0]));
    let enough = ray((5, 0, 0), (-1, 0, 0), Some(4 * PARAM_SCALE + 1));
    assert!(b.intersect_p_with_inv(&enough, [1, 0, 0]));
}

#[test]
fn slab_test_with_ray_along_a_face() {
    let b = unit_box();
    // the ray runs inside the plane of the upper face and still counts
    let on_face = ray((5, 1, 0), (-1, 0, 0), None);
    assert!(b.intersect_p_with_inv(&on_face, [1, 0, 0]));
    let above = ray((5, 2, 0), (-1, 0, 0), None);
    assert!(!b.intersect_p_with_inv(&above, [1, 0, 0]));
    let mut t0: i64 = 0;
    let mut t1: i64 = 0;
    assert!(b.intersect_p(&on_face, &mut t0, &mut t1));
    assert!(!b.intersect_p(&above, &mut t0, &mut t1));
}

#[test]
fn slab_test_widens_the_far_side() {
    // the far parameter 10000/10003 is below the near parameter 1 of the
    // other axis, and only the widening by 10003/9997 brings it above
    let b = Bounds3f::init(&Point3::new(0, 10000, 0), &Point3::new(10000, 20000, 1));
    let r = ray((0, 0, 0), (10003, 10000, 0), None);
    assert!(b.intersect_p_with_inv(&r, [0, 0, 0]));
    let mut t0: i64 = 0;
    let mut t1: i64 = 0;
    assert!(!b.intersect_p(&r, &mut t0, &mut t1));
    // beyond the widening the test fails too
    let far = ray((0, 0, 0), (10007, 10000, 0), None);
    assert!(!b.intersect_p_with_inv(&far, [0, 0, 0]));
}

#[test]
fn zero_direction_inside_and_outside() {
    let b = unit_box();
    let inside = ray((0, 0, 0), (0, 0, 0), None);
    assert!(b.intersect_p_with_inv(&inside, [0, 0, 0]));
    let outside = ray((3, 0, 0), (0, 0, 0), None);
    assert!(!b.intersect_p_with_inv(&outside, [0, 0, 0]));
}

#[test]
fn diagonal_ray_parameter_range_is_rounded_inwards() {
    let b = Bounds3f::init(&Point3::new(0, 0, 0), &Point3::new(10, 10, 10));
    let r = ray((-1, -1, -1), (3, 3, 3), None);
    let mut t0: i64 = 0;
    let mut t1: i64 = 0;
    assert!(b.intersect_p(&r, &mut t0, &mut t1));
    // enters at 1/3 and leaves at 11/3
    assert_eq!(t0, (PARAM_SCALE + 2) / 3);
    assert_eq!(t1, 11 * PARAM_SCALE / 3);
    assert_eq!(t0, 21846);
    assert_eq!(t1, 240298);
}

#[test]
fn ray_from_inside_starts_at_zero_and_stops_at_t_max() {
    let b = unit_box();
    let r = ray((0, 0, 0), (1, 0, 0), Some(PARAM_SCALE / 2));
    let mut t0: i64 = 9;
    let mut t1: i64 = 9;
    assert!(b.intersect_p(&r, &mut t0, &mut t1));
    assert_eq!(t0, 0);
    assert_eq!(t1, PARAM_SCALE / 2);
}

#[test]
fn ray_with_a_limit_behind_its_origin_meets_nothing() {
    let b = unit_box();
    let r = ray((0, 0, 0), (1, 0, 0), Some(-1));
    let mut t0: i64 = 3;
    let mut t1: i64 = 3;
    assert!(!b.intersect_p(&r, &mut t0, &mut t1));
    assert_eq!((t0, t1), (3, 3));
    assert!(!b.intersect_p_with_inv(&r, [0, 0, 0]));
    let at_zero = ray((0, 0, 0), (1, 0, 0), Some(0));
    assert!(b.intersect_p(&at_zero, &mut t0, &mut t1));
    assert_eq!((t0, t1), (0, 0));
    assert!(!b.intersect_p_with_inv(&at_zero, [0, 0, 0]));
}

#[test]
fn union_with_itself_and_with_empty() {
    let b = Bounds3f::init(&Point3::new(-3, 2, 7), &Point3::new(4, 9, 8));
    assert_eq!(Bounds3f::union(&b, &b), b);
    assert_eq!(Bounds3f::union(&Bounds3f::new(), &b), b);
    assert_eq!(Bounds3f::union(&b, &Bounds3f::new()), b);
}

#[test]
fn empty_box_has_extreme_corners() {
    let e = Bounds3f::new();
    assert_eq!(e.p_min, Point3::new(i32::MAX, i32::MAX, i32::MAX));
    assert_eq!(e.p_max, Point3::new(i32::MIN, i32::MIN, i32::MIN));
    assert_eq!(INFINITY, i64::MAX);
}

#[test]
fn init_orders_the_corners() {
    let b = Bounds3f::init(&Point3::new(4, -2, 9), &Point3::new(-1, 5, 3));
    assert_eq!(b.p_min, Point3::new(-1, -2, 3));
    assert_eq!(b.p_max, Point3::new(4, 5, 9));
    let one = Bounds3f::init_one(&Point3::new(7, 8, 9));
    assert_eq!(one.p_min, Point3::new(7, 8, 9));
    assert_eq!(one.p_max, Point3::new(7, 8, 9));
}

#[test]
fn union_and_intersection_of_two_boxes() {
    let a = Bounds3f::init(&Point3::new(0, 0, 0), &Point3::new(4, 4, 4));
    let b = Bounds3f::init(&Point3::new(2, -1, 3), &Point3::new(6, 2, 9));
    let u = Bounds3f::union(&a, &b);
    assert_eq!(u.p_min, Point3::new(0, -1, 0));
    assert_eq!(u.p_max, Point3::new(6, 4, 9));
    let i = Bounds3f::intersect(&a, &b);
    assert_eq!(i.p_min, Point3::new(2, 0, 3));
    assert_eq!(i.p_max, Point3::new(4, 2, 4));
    assert!(Bounds3f::overlaps(&a, &b));
    let far = Bounds3f::init(&Point3::new(5, 5, 5), &Point3::new(6, 6, 6));
    assert!(!Bounds3f::overlaps(&a, &far));
    let touching = Bounds3f::init(&Point3::new(4, 4, 4), &Point3::new(6, 6, 6));
    assert!(Bounds3f::overlaps(&a, &touching));
    let p = Bounds3f::union_pt(&a, &Point3::new(-5, 2, 10));
    assert_eq!(p.p_min, Point3::new(-5, 0, 0));
    assert_eq!(p.p_max, Point3::new(4, 4, 10));
}

#[test]
fn diagonal_area_and_volume() {
    let b = Bounds3f::init(&Point3::new(1, 2, 3), &Point3::new(3, 5, 7));
    assert_eq!(b.diagonal(), Vector3::new(2, 3, 4));
    assert_eq!(b.surface_area(), 2 * (2 * 3 + 2 * 4 + 4 * 3));
    assert_eq!(b.volume(), 24);
    let widest = Bounds3f::init(
        &Point3::new(i32::MIN, i32::MIN, i32::MIN),
        &Point3::new(i32::MAX, i32::MAX, i32::MAX),
    );
    let side: i128 = (1i128 << 32) - 1;
    assert_eq!(widest.surface_area(), 6 * side * side);
    assert_eq!(widest.volume(), side * side * side);
    // the empty box has a negative extent on every axis
    assert_eq!(Bounds3f::new().diagonal(), Vector3::new(-(side as i64), -(side as i64), -(side as i64)));
}

#[test]
fn max_extent_breaks_ties_towards_later_axes() {
    let x = Bounds3f::init(&Point3::new(0, 0, 0), &Point3::new(5, 4, 3));
    assert_eq!(x.max_extent(), 0);
    let y = Bounds3f::init(&Point3::new(0, 0, 0), &Point3::new(4, 5, 3));
    assert_eq!(y.max_extent(), 1);
    let z = Bounds3f::init(&Point3::new(0, 0, 0), &Point3::new(4, 3, 5));
    assert_eq!(z.max_extent(), 2);
    let xy = Bounds3f::init(&Point3::new(0, 0, 0), &Point3::new(5, 5, 3));
    assert_eq!(xy.max_extent(), 1);
    let xz = Bounds3f::init(&Point3::new(0, 0, 0), &Point3::new(5, 3, 5));
    assert_eq!(xz.max_extent(), 2);
    let yz = Bounds3f::init(&Point3::new(0, 0, 0), &Point3::new(3, 5, 5));
    assert_eq!(yz.max_extent(), 2);
    let cube = Bounds3f::init(&Point3::new(0, 0, 0), &Point3::new(5, 5, 5));
    assert_eq!(cube.max_extent(), 2);
}

#[test]
fn offset_is_the_position_in_the_box() {
    let b = Bounds3f::init(&Point3::new(0, 10, -4), &Point3::new(4, 10, 4));
    let o = b.offset(&Point3::new(1, 10, 4));
    assert_eq!(o.x, PARAM_SCALE / 4);
    // no extent along y: the distance from p_min, which is zero inside
    assert_eq!(o.y, 0);
    assert_eq!(o.z, PARAM_SCALE);
    let at_min = b.offset(&Point3::new(0, 10, -4));
    assert_eq!(at_min, Vector3::new(0, 0, 0));
    let third = Bounds3f::init(&Point3::new(0, 0, 0), &Point3::new(3, 3, 3));
    assert_eq!(third.offset(&Point3::new(1, 2, 3)), Vector3::new(21845, 43690, 65536));
    // a point before the box has a negative position, rounded down
    assert_eq!(third.offset(&Point3::new(-1, 0, 0)).x, -21846);
}

#[test]
fn lerp_is_the_inverse_of_offset_on_lattice_points() {
    let b = Bounds3f::init(&Point3::new(-8, 0, 16), &Point3::new(8, 4, 32));
    let p = Point3::new(-4, 3, 20);
    let o = b.offset(&p);
    assert_eq!(b.lerp(o), p);
    assert_eq!(b.lerp(Vector3::new(0, 0, 0)), b.p_min);
    assert_eq!(b.lerp(Vector3::new(PARAM_SCALE, PARAM_SCALE, PARAM_SCALE)), b.p_max);
    assert_eq!(b.lerp(Vector3::new(PARAM_SCALE / 2, PARAM_SCALE / 2, PARAM_SCALE / 2)), Point3::new(0, 2, 24));
    // where the position was rounded down the point comes out one unit low
    let third = Bounds3f::init(&Point3::new(0, 0, 0), &Point3::new(3, 3, 3));
    let q = Point3::new(1, 2, 3);
    assert_eq!(third.lerp(third.offset(&q)), Point3::new(0, 1, 3));
}

#[test]
fn inside_counts_the_faces() {
    let b = unit_box();
    assert!(b.inside(&Point3::new(0, 0, 0)));
    assert!(b.inside(&Point3::new(1, -1, 1)));
    assert!(!b.inside(&Point3::new(2, 0, 0)));
    assert!(!Bounds3f::new().inside(&Point3::new(0, 0, 0)));
}

#[test]
fn corners_by_bits() {
    let b = Bounds3f::init(&Point3::new(0, 10, 20), &Point3::new(1, 11, 21));
    assert_eq!(b.corner(0), Point3::new(0, 10, 20));
    assert_eq!(b.corner(1), Point3::new(1, 10, 20));
    assert_eq!(b.corner(2), Point3::new(0, 11, 20));
    assert_eq!(b.corner(5), Point3::new(1, 10, 21));
    assert_eq!(b.corner(7), Point3::new(1, 11, 21));
    assert_eq!(b.index(0), b.p_min);
    assert_eq!(b.index(1), b.p_max);
    let mut c = b;
    c.index_mut(0).x = -5;
    *c.index_mut(3) = Point3::new(9, 9, 9);
    assert_eq!(c.p_min, Point3::new(-5, 10, 20));
    assert_eq!(c.p_max, Point3::new(9, 9, 9));
}

#[test]
fn expand_grows_and_stops_at_the_lattice() {
    let b = unit_box();
    let e = Bounds3f::expand(&b, 3);
    assert_eq!(e.p_min, Point3::new(-4, -4, -4));
    assert_eq!(e.p_max, Point3::new(4, 4, 4));
    let edge = Bounds3f::init(&Point3::new(i32::MIN + 1, 0, 0), &Point3::new(i32::MAX - 1, 1, 1));
    let g = Bounds3f::expand(&edge, 5);
    assert_eq!(g.p_min, Point3::new(i32::MIN, -5, -5));
    assert_eq!(g.p_max, Point3::new(i32::MAX, 6, 6));
    // shrinking past the middle turns the corners round
    let s = Bounds3f::expand(&b, -2);
    assert_eq!(s.p_min, Point3::new(-1, -1, -1));
    assert_eq!(s.p_max, Point3::new(1, 1, 1));
}

#[test]
fn slab_flags_pick_the_near_corner() {
    let b = unit_box();
    for d in [(1i64, 2i64, 3i64), (-1, 2, -3), (-5, -1, -1), (7, -2, 1)] {
        let o = (-(d.0 as i32) * 10, -(d.1 as i32) * 10, -(d.2 as i32) * 10);
        let r = ray(o, d, None);
        assert!(b.intersect_p_with_inv(&r, flags(d)));
        let away = ray(o, (-d.0, -d.1, -d.2), None);
        assert!(!b.intersect_p_with_inv(&away, flags((-d.0, -d.1, -d.2))));
    }
}
