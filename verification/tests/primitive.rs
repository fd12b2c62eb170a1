use raytracer::primitive::{intersect_sphere, Roots};

fn solve(origin: [f32; 3], direction: [f32; 3], center: [f32; 3], radius: f32) -> (f32, f32, f32) {
    let oc = [origin[0] - center[0], origin[1] - center[1], origin[2] - center[2]];
    let b = 2.0 * (direction[0] * oc[0] + direction[1] * oc[1] + direction[2] * oc[2]);
    let c = oc[0] * oc[0] + oc[1] * oc[1] + oc[2] * oc[2] - radius * radius;
    let disc = b * b - 4.0 * c;
    ((disc), (-b - disc.sqrt()) / 2.0, (-b + disc.sqrt()) / 2.0)
}

fn roots(d: f32, t0: f32, t1: f32) -> Roots {
    intersect_sphere(d.to_bits(), t0.to_bits(), t1.to_bits())
}

#[test]
fn ray_through_the_sphere_has_two_hits() {
    let (d, t0, t1) = solve([0.0, 0.0, 5.0], [0.0, 0.0, -1.0], [0.0, 0.0, 0.0], 1.0);
    assert_eq!((d, t0, t1), (4.0, 4.0, 6.0));
    assert_eq!(roots(d, t0, t1), Roots::Both);
}

#[test]
fn ray_past_the_sphere_has_none() {
    let (d, t0, t1) = solve([0.0, 2.0, 5.0], [0.0, 0.0, -1.0], [0.0, 0.0, 0.0], 1.0);
    assert!(d < 0.0);
    assert_eq!(roots(d, t0, t1), Roots::Neither);
}

#[test]
fn ray_from_inside_has_the_far_hit() {
    let (d, t0, t1) = solve([0.0, 0.0, 0.0], [0.0, 0.0, -1.0], [0.0, 0.0, 0.0], 1.0);
    assert_eq!((t0, t1), (-1.0, 1.0));
    assert_eq!(roots(d, t0, t1), Roots::Far);
}

#[test]
fn sphere_behind_the_ray_has_none() {
    let (d, t0, t1) = solve([0.0, 0.0, -5.0], [0.0, 0.0, -1.0], [0.0, 0.0, 0.0], 1.0);
    assert_eq!((t0, t1), (-6.0, -4.0));
    assert_eq!(roots(d, t0, t1), Roots::Neither);
}

#[test]
fn roots_at_zero_do_not_count() {
    assert_eq!(roots(4.0, 0.0, 2.0), Roots::Far);
    assert_eq!(roots(4.0, -2.0, 0.0), Roots::Neither);
    assert_eq!(roots(0.0, 0.0, 0.0), Roots::Neither);
    assert_eq!(roots(0.0, 3.0, 3.0), Roots::Both);
    assert_eq!(roots(-0.0, 3.0, 3.0), Roots::Both);
    assert_eq!(roots(-1.0e-30, 3.0, 3.0), Roots::Neither);
}
