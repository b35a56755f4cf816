use rust_raytracer::material::Color;
use rust_raytracer::vector3::Vector3;
use rust_raytracer::FX_ONE;

#[test]
fn vector_sums_and_differences_are_componentwise() {
    let a = Vector3::new(1, -2, 3);
    let b = Vector3::new(10, 20, -30);
    assert_eq!(a.add(&b), Vector3::new(11, 18, -27));
    assert_eq!(a.sub(&b), Vector3::new(-9, -22, 33));
    assert_eq!(a.neg(), Vector3::new(-1, 2, -3));
    assert_eq!(a.scale(FX_ONE / 2), Vector3::new(0, -1, 1));
}

#[test]
fn inner_product_is_the_scaled_dot() {
    let a = Vector3::new(FX_ONE, 0, 0);
    let b = Vector3::new(FX_ONE, FX_ONE, 0);
    assert_eq!(a.inner_product(&b), FX_ONE);
    assert_eq!(a.inner_product(&Vector3::new(0, FX_ONE, 0)), 0);
    assert_eq!(a.inner_product(&Vector3::new(-FX_ONE, 0, 0)), -FX_ONE);
    assert_eq!(a.length_squared(), FX_ONE);
}

#[test]
fn squared_distances_are_unscaled_and_exact() {
    let a = Vector3::new(3, 4, 0);
    let b = Vector3::new(0, 0, 0);
    assert_eq!(a.dist_sq(&b), 25);
    assert_eq!(a.dist_sq(&a), 0);
}

#[test]
fn reflection_mirrors_about_the_normal() {
    let down = Vector3::new(0, -FX_ONE, 0);
    let up = Vector3::new(0, FX_ONE, 0);
    assert_eq!(down.reflect(&up), Vector3::new(0, FX_ONE, 0));
    let slanted = Vector3::new(FX_ONE, -FX_ONE, 0);
    assert_eq!(slanted.reflect(&up), Vector3::new(FX_ONE, FX_ONE, 0));
}

#[test]
fn normalizing_scales_to_unit_length() {
    // a 3-4-5 triangle normalizes exactly
    let v = Vector3::new(3 * FX_ONE, 4 * FX_ONE, 0);
    let u = v.normalized().expect("nonzero vector");
    assert_eq!(u, Vector3::new(3 * FX_ONE / 5, 4 * FX_ONE / 5, 0));
    assert!(Vector3::new(0, 0, 0).normalized().is_none());
}

#[test]
fn color_arithmetic_is_componentwise_fixed_point() {
    let a = Color::new(FX_ONE, FX_ONE / 2, 0);
    let b = Color::new(FX_ONE / 2, FX_ONE / 2, FX_ONE);
    assert_eq!(a.add(&b), Color::new(3 * FX_ONE / 2, FX_ONE, FX_ONE));
    assert_eq!(a.mul(&b), Color::new(FX_ONE / 2, FX_ONE / 4, 0));
    assert_eq!(a.scale(2 * FX_ONE), Color::new(2 * FX_ONE, FX_ONE, 0));
    assert_eq!(a.max(), FX_ONE);
    assert_eq!(a.sum(), FX_ONE + FX_ONE / 2);
    assert_eq!(Color::black(), Color::new(0, 0, 0));
    assert_eq!(Color::white(), Color::new(FX_ONE, FX_ONE, FX_ONE));
}
