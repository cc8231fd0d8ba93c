use raytracer::nearest::{nearest_candidate, scene_hit};

fn key(t: f64) -> u64 {
    t.to_bits()
}

// Roots of a ray from `origin_z` along +z against a sphere centred on the
// z axis at `center_z`.
fn sphere_roots(origin_z: f64, center_z: f64, radius: f64) -> Vec<u64> {
    let oc = origin_z - center_z;
    let half_b = oc;
    let c = oc * oc - radius * radius;
    let disc = half_b * half_b - c;
    if disc < 0.0 {
        return vec![];
    }
    let sqrtd = disc.sqrt();
    vec![key(-half_b - sqrtd), key(-half_b + sqrtd)]
}

#[test]
fn ray_inside_sphere_takes_far_root() {
    let roots = sphere_roots(0.0, 0.0, 5.0);
    assert_eq!(nearest_candidate(&roots, key(0.001), key(10000.0)), Some(key(5.0)));
}

#[test]
fn ray_before_sphere_takes_near_root() {
    let roots = sphere_roots(0.0, 10.0, 5.0);
    assert_eq!(nearest_candidate(&roots, key(0.001), key(10000.0)), Some(key(5.0)));
}

#[test]
fn sphere_missed() {
    let roots = sphere_roots(0.0, 10.0, 5.0);
    let far_off: Vec<u64> = vec![];
    assert_eq!(nearest_candidate(&far_off, key(0.001), key(f64::INFINITY)), None);
    assert_eq!(nearest_candidate(&roots, key(0.001), key(4.0)), None);
}

#[test]
fn sphere_behind_ray() {
    let roots = sphere_roots(0.0, -10.0, 5.0);
    assert_eq!(nearest_candidate(&roots, key(0.001), key(f64::INFINITY)), None);
}

#[test]
fn window_is_open() {
    let cands = vec![key(1.0), key(2.0)];
    assert_eq!(nearest_candidate(&cands, key(1.0), key(2.0)), None);
    assert_eq!(nearest_candidate(&cands, key(0.5), key(2.0)), Some(key(1.0)));
}

#[test]
fn scene_keeps_nearest_member() {
    let members = vec![vec![key(7.0), key(9.0)], vec![key(3.0)], vec![key(-1.0), key(4.0)]];
    assert_eq!(scene_hit(&members, key(0.001), key(f64::INFINITY)), Some((1, key(3.0))));
}

#[test]
fn scene_order_does_not_change_hit() {
    let a = vec![key(7.0)];
    let b = vec![key(2.5), key(8.0)];
    let c = vec![key(4.0)];
    let one = vec![a.clone(), b.clone(), c.clone()];
    let two = vec![c, b, a];
    assert_eq!(scene_hit(&one, key(0.001), key(100.0)), Some((1, key(2.5))));
    assert_eq!(scene_hit(&two, key(0.001), key(100.0)), Some((1, key(2.5))));
}

#[test]
fn scene_tie_keeps_first_member() {
    let members = vec![vec![key(5.0)], vec![key(2.0)], vec![key(2.0)]];
    assert_eq!(scene_hit(&members, key(0.001), key(100.0)), Some((1, key(2.0))));
}

#[test]
fn scene_without_hit() {
    let members = vec![vec![key(200.0)], vec![]];
    assert_eq!(scene_hit(&members, key(0.001), key(100.0)), None);
    let empty: Vec<Vec<u64>> = vec![];
    assert_eq!(scene_hit(&empty, key(0.001), key(100.0)), None);
}
