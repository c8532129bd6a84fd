use ray_tracer_challenge::{
    hit, hit_index, intersection, is_non_negative, is_occluded, refraction_media,
    sort_intersections, total_order_key, Intersection, SurfaceId,
};

fn sphere_id() -> SurfaceId {
    SurfaceId::new_random()
}

fn at(t: f32, object: SurfaceId) -> Intersection {
    intersection(t.to_bits(), object)
}

#[test]
fn intersection_tests_an_intersection_encapsulates_t_and_object() {
    let s = sphere_id();
    let i = at(3.5, s);
    assert_eq!(f32::from_bits(i.t_bits), 3.5);
    assert_eq!(i.object, s);
}

#[test]
fn intersections_tests_an_intersection_encapsulates_t_and_object() {
    let s = sphere_id();
    let i = at(3.5, s);
    assert_eq!(f32::from_bits(i.t_bits), 3.5);
    assert_eq!(i.object, s);
}

#[test]
fn intersection_tests_aggregating_intersections() {
    let s = sphere_id();
    let xs = [at(1.0, s), at(2.0, s)];
    assert_eq!(xs.len(), 2);
    assert_eq!(f32::from_bits(xs[0].t_bits), 1.0);
    assert_eq!(f32::from_bits(xs[1].t_bits), 2.0);
}

#[test]
fn intersections_tests_aggregating_intersections() {
    let s = sphere_id();
    let xs = [at(1.0, s), at(2.0, s)];
    assert_eq!(xs.len(), 2);
    assert_eq!(f32::from_bits(xs[0].t_bits), 1.0);
    assert_eq!(f32::from_bits(xs[1].t_bits), 2.0);
}

fn all_positive() {
    let s = sphere_id();
    let i1 = at(1.0, s);
    let i2 = at(2.0, s);
    let xs = vec![i2, i1];
    assert_eq!(hit(&xs).unwrap(), i1);
}

fn some_negative() {
    let s = sphere_id();
    let i1 = at(-1.0, s);
    let i2 = at(1.0, s);
    let xs = vec![i2, i1];
    assert_eq!(hit(&xs).unwrap(), i2);
}

fn all_negative() {
    let s = sphere_id();
    let i1 = at(-2.0, s);
    let i2 = at(-1.0, s);
    let xs = vec![i2, i1];
    assert_eq!(hit(&xs), None);
}

fn lowest_non_negative() {
    let s = sphere_id();
    let i1 = at(5.0, s);
    let i2 = at(7.0, s);
    let i3 = at(-3.0, s);
    let i4 = at(2.0, s);
    let xs = vec![i1, i2, i3, i4];
    assert_eq!(hit(&xs).unwrap(), i4);
}

#[test]
fn intersection_tests_hit_when_all_intersections_have_positive_t() {
    all_positive();
}

#[test]
fn intersections_tests_hit_when_all_intersections_have_positive_t() {
    all_positive();
}

#[test]
fn intersection_tests_hit_when_some_intersections_have_negative_t() {
    some_negative();
}

#[test]
fn intersections_tests_hit_when_some_intersections_have_negative_t() {
    some_negative();
}

#[test]
fn intersection_tests_hit_when_all_intersections_have_negative_t() {
    all_negative();
}

#[test]
fn intersections_tests_hit_when_all_intersections_have_negative_t() {
    all_negative();
}

#[test]
fn intersection_tests_hit_is_always_the_lowest_non_negative_intersection() {
    lowest_non_negative();
}

#[test]
fn intersections_tests_hit_is_always_the_lowest_non_negative_intersection() {
    lowest_non_negative();
}

#[test]
fn finding_n1_and_n2_at_various_intersections() {
    let a = sphere_id();
    let b = sphere_id();
    let c = sphere_id();
    let index = |m: Option<SurfaceId>| -> f32 {
        match m {
            None => 1.0,
            Some(id) if id == a => 1.5,
            Some(id) if id == b => 2.0,
            Some(id) if id == c => 2.5,
            Some(_) => panic!("unknown surface"),
        }
    };
    let xs = vec![at(2.0, a), at(2.75, b), at(3.25, c), at(4.75, b), at(5.25, c), at(6.0, a)];
    let expected = [(1.0, 1.5), (1.5, 2.0), (2.0, 2.5), (2.5, 2.5), (2.5, 1.5), (1.5, 1.0)];
    for (k, (n1, n2)) in expected.iter().enumerate() {
        let m = refraction_media(&xs, k);
        assert_eq!(index(m.exited), *n1);
        assert_eq!(index(m.entered), *n2);
    }
}

#[test]
fn hit_takes_zero_and_negative_zero_as_visible() {
    let s = sphere_id();
    let xs = vec![at(-1.0, s), at(0.0, s)];
    assert_eq!(hit_index(&xs), Some(1));
    let xs = vec![at(-0.0, s), at(3.0, s)];
    assert_eq!(hit_index(&xs), Some(0));
}

#[test]
fn hit_skips_nan_and_keeps_first_of_equal_t() {
    let s1 = sphere_id();
    let s2 = sphere_id();
    let xs = vec![at(f32::NAN, s1), at(4.0, s2), at(4.0, s1), at(6.0, s1)];
    assert_eq!(hit_index(&xs), Some(1));
    assert_eq!(hit(&xs).unwrap().object, s2);
    assert_eq!(hit(&vec![at(f32::NAN, s1)]), None);
    assert_eq!(hit(&Vec::new()), None);
}

#[test]
fn hit_in_mixed_sign_set_is_least_non_negative() {
    let s = sphere_id();
    let xs = vec![at(-6.0, s), at(-4.0, s), at(4.0, s), at(6.0, s)];
    assert_eq!(f32::from_bits(hit(&xs).unwrap().t_bits), 4.0);
}

#[test]
fn infinity_is_visible_but_last() {
    let s = sphere_id();
    let xs = vec![at(f32::INFINITY, s), at(f32::NEG_INFINITY, s)];
    assert_eq!(hit_index(&xs), Some(0));
    let xs = vec![at(f32::INFINITY, s), at(1.0e30, s)];
    assert_eq!(hit_index(&xs), Some(1));
}

#[test]
fn non_negative_follows_float_comparison() {
    for t in [0.0f32, -0.0, 1.0, -1.0, f32::INFINITY, f32::NEG_INFINITY, f32::NAN, 1.0e-40, -1.0e-40] {
        assert_eq!(is_non_negative(t.to_bits()), t >= 0.0, "t = {}", t);
    }
}

#[test]
fn order_key_follows_total_order() {
    let ts = [f32::NEG_INFINITY, -5.0f32, -1.0e-40, -0.0, 0.0, 1.0e-40, 2.5, 7.0, f32::INFINITY];
    for a in ts.iter() {
        for b in ts.iter() {
            let ka = total_order_key(a.to_bits());
            let kb = total_order_key(b.to_bits());
            assert_eq!(ka.cmp(&kb), a.total_cmp(b), "{} vs {}", a, b);
        }
    }
}

#[test]
fn sorting_orders_by_t_and_keeps_ties_in_place() {
    let a = sphere_id();
    let b = sphere_id();
    let mut xs = vec![at(6.0, a), at(4.0, a), at(-1.0, b), at(4.0, b), at(0.5, b)];
    sort_intersections(&mut xs);
    let ts: Vec<f32> = xs.iter().map(|i| f32::from_bits(i.t_bits)).collect();
    assert_eq!(ts, vec![-1.0, 0.5, 4.0, 4.0, 6.0]);
    assert_eq!(xs[2].object, a);
    assert_eq!(xs[3].object, b);
    let mut empty: Vec<Intersection> = Vec::new();
    sort_intersections(&mut empty);
    assert!(empty.is_empty());
}

#[test]
fn media_stack_for_nested_surfaces() {
    let outer = sphere_id();
    let inner = sphere_id();
    let xs = vec![at(1.0, outer), at(2.0, inner), at(3.0, inner), at(4.0, outer)];
    let m = refraction_media(&xs, 1);
    assert_eq!(m.exited, Some(outer));
    assert_eq!(m.entered, Some(inner));
    let m = refraction_media(&xs, 2);
    assert_eq!(m.exited, Some(inner));
    assert_eq!(m.entered, Some(outer));
    let m = refraction_media(&xs, 3);
    assert_eq!(m.exited, Some(outer));
    assert_eq!(m.entered, None);
}

#[test]
fn surface_ids_are_random_version_four() {
    let a = SurfaceId::new_random();
    let b = SurfaceId::new_random();
    assert_ne!(a, b);
    assert_eq!((a.value >> 76) & 0xf, 4);
    assert_eq!((a.value >> 62) & 3, 2);
    assert_eq!(SurfaceId::from_u128(42).value, 42);
}

#[test]
fn occluded_only_by_a_hit_nearer_than_the_light() {
    let s = sphere_id();
    let xs = vec![at(-1.0, s), at(4.0, s), at(6.0, s)];
    assert!(is_occluded(&xs, 5.0f32.to_bits()));
    assert!(!is_occluded(&xs, 3.0f32.to_bits()));
    assert!(!is_occluded(&xs, 4.0f32.to_bits()));
    assert!(!is_occluded(&vec![at(-2.0, s), at(-1.0, s)], 5.0f32.to_bits()));
    assert!(!is_occluded(&Vec::new(), 5.0f32.to_bits()));
}
