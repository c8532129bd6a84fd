use ray_tracer_challenge::{cylinder, less_or_equal, less_than, Cylinder, ShapeError};

#[test]
fn default_minimum_and_maximum_for_cylinder() {
    let cyl = cylinder();
    assert_eq!(f32::NEG_INFINITY, f32::from_bits(cyl.minimum_bits));
    assert_eq!(f32::INFINITY, f32::from_bits(cyl.maximum_bits));
}

#[test]
fn default_closed_value_for_cylinder() {
    let cyl = cylinder();
    assert!(!cyl.closed);
}

#[test]
fn truncated_cylinder_spans_only_inside_its_ends() {
    let mut c = cylinder();
    assert!(c.set_minimum(1.0f32.to_bits()).is_ok());
    assert!(c.set_maximum(2.0f32.to_bits()).is_ok());
    assert!(c.spans_height(1.5f32.to_bits()));
    assert!(!c.spans_height(1.0f32.to_bits()));
    assert!(!c.spans_height(2.0f32.to_bits()));
    assert!(!c.spans_height(0.0f32.to_bits()));
    assert!(!c.spans_height(3.0f32.to_bits()));
    assert!(!c.spans_height(f32::NAN.to_bits()));
}

#[test]
fn infinite_cylinder_spans_every_finite_height() {
    let c = cylinder();
    for y in [-1.0e30f32, -1.0, -0.0, 0.0, 2.5, 1.0e30] {
        assert!(c.spans_height(y.to_bits()));
    }
    assert!(!c.spans_height(f32::INFINITY.to_bits()));
}

#[test]
fn extent_with_minimum_above_maximum_is_refused() {
    assert_eq!(
        Cylinder::with_extent(2.0f32.to_bits(), 1.0f32.to_bits(), true),
        Err(ShapeError::InvalidExtent)
    );
    assert_eq!(
        Cylinder::with_extent(f32::NAN.to_bits(), 1.0f32.to_bits(), false),
        Err(ShapeError::InvalidExtent)
    );
    let c = Cylinder::with_extent(1.0f32.to_bits(), 2.0f32.to_bits(), true).unwrap();
    assert!(c.closed);
    let mut d = c;
    assert_eq!(d.set_minimum(3.0f32.to_bits()), Err(ShapeError::InvalidExtent));
    assert_eq!(d, c);
    assert_eq!(d.set_maximum(0.5f32.to_bits()), Err(ShapeError::InvalidExtent));
    assert_eq!(d, c);
    d.set_closed(false);
    assert!(!d.closed);
}

#[test]
fn float_comparisons_match_ieee() {
    let vals = [f32::NEG_INFINITY, -2.0f32, -0.0, 0.0, 1.0e-40, 3.0, f32::INFINITY, f32::NAN];
    for a in vals.iter() {
        for b in vals.iter() {
            assert_eq!(less_than(a.to_bits(), b.to_bits()), a < b, "{} < {}", a, b);
            assert_eq!(less_or_equal(a.to_bits(), b.to_bits()), a <= b, "{} <= {}", a, b);
        }
    }
}
