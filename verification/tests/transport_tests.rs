use rust_raytracer::fixed::{fx_mul, fx_sqrt, isqrt_u64};
use rust_raytracer::material::Color;
use rust_raytracer::scene::{
    choose_dielectric_branch, dielectric_weights, draw_unit, fx_pow, photon_bounce_step,
    photon_power, pick_light, random_light, reflect_probability, refract, schlick_reflectance,
    select_bounce, should_terminate, BounceOutcome, BounceType, Light, MapKind,
};
use rust_raytracer::vector3::Vector3;
use rust_raytracer::FX_ONE;

#[test]
fn fixed_point_products_truncate_toward_zero() {
    assert_eq!(fx_mul(3 * FX_ONE, FX_ONE / 2), 3 * FX_ONE / 2);
    assert_eq!(fx_mul(-3 * FX_ONE, FX_ONE / 2), -(3 * FX_ONE) / 2);
    // -199998 / 65536 is -3.05..: toward zero gives -3, not -4
    assert_eq!(fx_mul(-99999, 2), -3);
    assert_eq!(fx_mul(99999, 2), 3);
}

#[test]
fn integer_square_roots_are_exact_floors() {
    assert_eq!(isqrt_u64(0), 0);
    assert_eq!(isqrt_u64(15), 3);
    assert_eq!(isqrt_u64(16), 4);
    assert_eq!(isqrt_u64(u64::MAX), 0xFFFF_FFFF);
    // sqrt(4) = 2 in fixed point
    assert_eq!(fx_sqrt(4 * FX_ONE), 2 * FX_ONE);
    assert_eq!(fx_sqrt(FX_ONE), FX_ONE);
}

#[test]
fn termination_depth_is_six() {
    assert!(!should_terminate(0));
    assert!(!should_terminate(5));
    assert!(should_terminate(6));
    assert!(should_terminate(7));
}

#[test]
fn reflect_probability_is_dominant_channel_ratio() {
    let coeff = Color::new(FX_ONE / 2, FX_ONE / 2, FX_ONE / 2);
    let power = Color::new(2 * FX_ONE, FX_ONE, FX_ONE);
    assert_eq!(reflect_probability(&coeff, &power), FX_ONE / 2);
    let uneven = Color::new(FX_ONE / 4, FX_ONE, 0);
    // filtered channels: FX/8, FX, 0; dominant FX over dominant 2*FX
    assert_eq!(reflect_probability(&uneven, &power), FX_ONE / 2);
}

#[test]
fn select_bounce_uses_cumulative_bands() {
    let pd = 1000;
    let ps = 500;
    assert_eq!(select_bounce(pd, ps, 0), BounceType::DIFFUSE);
    assert_eq!(select_bounce(pd, ps, 999), BounceType::DIFFUSE);
    assert_eq!(select_bounce(pd, ps, 1000), BounceType::SPECULAR);
    assert_eq!(select_bounce(pd, ps, 1499), BounceType::SPECULAR);
    assert_eq!(select_bounce(pd, ps, 1500), BounceType::NONE);
}

#[test]
fn photon_step_deposits_by_prior_bounce() {
    let diffuse = Color::new(FX_ONE / 2, FX_ONE / 2, FX_ONE / 2);
    let reflectc = Color::new(0, 0, 0);
    let power = Color::new(FX_ONE, FX_ONE, FX_ONE);
    let s0 = photon_bounce_step(&diffuse, &reflectc, &power, 0, BounceType::DIFFUSE, 0);
    assert_eq!(s0.deposit, None);
    let s1 = photon_bounce_step(&diffuse, &reflectc, &power, 3, BounceType::DIFFUSE, 0);
    assert_eq!(s1.deposit, Some(MapKind::Global));
    let s2 = photon_bounce_step(&diffuse, &reflectc, &power, 3, BounceType::SPECULAR, 0);
    assert_eq!(s2.deposit, Some(MapKind::Caustic));
    let s3 = photon_bounce_step(&diffuse, &reflectc, &power, 3, BounceType::NONE, 0);
    assert_eq!(s3.deposit, None);
}

#[test]
fn photon_step_divides_survivor_power_by_probability() {
    let diffuse = Color::new(FX_ONE / 2, FX_ONE / 2, FX_ONE / 2);
    let reflectc = Color::new(0, 0, 0);
    let power = Color::new(FX_ONE, FX_ONE, FX_ONE);
    // pd = 1/2: a draw below it bounces diffusely with power
    // (power * diffuse) / pd == power
    let s = photon_bounce_step(&diffuse, &reflectc, &power, 1, BounceType::NONE, 100);
    match s.outcome {
        BounceOutcome::Bounce { kind, power: p } => {
            assert_eq!(kind, BounceType::DIFFUSE);
            assert_eq!(p, Color::new(FX_ONE, FX_ONE, FX_ONE));
        },
        BounceOutcome::Absorb => panic!("expected a diffuse bounce"),
    }
    // a draw above pd + ps absorbs
    let s2 = photon_bounce_step(&diffuse, &reflectc, &power, 1, BounceType::NONE, FX_ONE - 1);
    assert_eq!(s2.outcome, BounceOutcome::Absorb);
}

#[test]
fn roulette_is_unbiased_across_trials() {
    // Deterministic draws; expected deposited power equals the
    // reflectance-weighted incoming power.
    let diffuse = Color::new(FX_ONE / 2, FX_ONE / 2, FX_ONE / 2);
    let reflectc = Color::new(0, 0, 0);
    let power = Color::new(FX_ONE, FX_ONE, FX_ONE);
    let trials: i64 = 16384;
    let mut total: i64 = 0;
    let mut state: u64 = 42;
    for _ in 0..trials {
        state = state.wrapping_mul(6364136223846793005).wrapping_add(1442695040888963407);
        let draw = ((state >> 16) % 65536) as i64;
        let s = photon_bounce_step(&diffuse, &reflectc, &power, 1, BounceType::NONE, draw);
        if let BounceOutcome::Bounce { power: p, .. } = s.outcome {
            total += p.r;
        }
    }
    let mean = total / trials;
    let expected = fx_mul(power.r, diffuse.r);
    let err = (mean - expected).abs();
    assert!(
        err * 50 < expected,
        "mean deposited power {} too far from expected {}",
        mean,
        expected
    );
}

#[test]
fn total_internal_reflection_reflects_everything() {
    // dense to sparse at a steep angle: the discriminant is negative
    let direction = Vector3::new(56755, -32768, 0);
    let normal = Vector3::new(0, FX_ONE, 0);
    let n = 3 * FX_ONE / 2;
    let nt = FX_ONE;
    let t = refract(&direction, &normal, n, nt);
    assert!(t.is_none());
    let (wr, wt) = dielectric_weights(&t, FX_ONE / 3);
    assert_eq!(wr, FX_ONE);
    assert_eq!(wt, 0);
}

#[test]
fn head_on_refraction_passes_straight_through() {
    let direction = Vector3::new(0, -FX_ONE, 0);
    let normal = Vector3::new(0, FX_ONE, 0);
    let t = refract(&direction, &normal, FX_ONE, 3 * FX_ONE / 2).expect("no reflection head-on");
    assert_eq!(t, Vector3::new(0, -FX_ONE, 0));
    let (wr, wt) = dielectric_weights(&Some(t), 2621);
    assert_eq!(wr, 2621);
    assert_eq!(wt, FX_ONE - 2621);
}

#[test]
fn schlick_reflectance_of_glass_head_on() {
    // ((1.5 - 1) / (1.5 + 1))^2 = 0.04, truncated in fixed point
    assert_eq!(schlick_reflectance(3 * FX_ONE / 2, FX_ONE), 2621);
    // grazing incidence approaches one
    let grazing = schlick_reflectance(3 * FX_ONE / 2, 0);
    assert!(grazing > 9 * FX_ONE / 10);
    assert!(grazing <= FX_ONE);
}

#[test]
fn dielectric_branch_choice_follows_the_draw() {
    assert!(choose_dielectric_branch(1000, 999));
    assert!(!choose_dielectric_branch(1000, 1000));
}

#[test]
fn powers_of_fractions_are_exact() {
    assert_eq!(fx_pow(FX_ONE / 2, 0), FX_ONE);
    assert_eq!(fx_pow(FX_ONE / 2, 1), FX_ONE / 2);
    assert_eq!(fx_pow(FX_ONE / 2, 2), FX_ONE / 4);
    assert_eq!(fx_pow(FX_ONE, 50), FX_ONE);
    assert_eq!(fx_pow(0, 3), 0);
}

#[test]
fn light_selection_is_intensity_weighted() {
    let lights = vec![
        Light::new(&Vector3::new(0, 0, 0), Color::white(), 2),
        Light::new(&Vector3::new(FX_ONE, 0, 0), Color::white(), 0),
        Light::new(&Vector3::new(0, FX_ONE, 0), Color::white(), 3),
    ];
    assert_eq!(pick_light(&lights, 0), 0);
    assert_eq!(pick_light(&lights, 1), 0);
    assert_eq!(pick_light(&lights, 2), 2);
    assert_eq!(pick_light(&lights, 4), 2);
    for _ in 0..32 {
        let i = random_light(&lights);
        assert!(lights[i].intensity > 0);
    }
}

#[test]
fn emitted_photon_power_divides_the_budget() {
    let light = Light::new(&Vector3::new(0, 0, 0), Color::new(FX_ONE, FX_ONE / 2, 0), 5000 * FX_ONE);
    let p = photon_power(&light, 1000);
    assert_eq!(p.r, 5 * FX_ONE);
    assert_eq!(p.g, 5 * FX_ONE / 2);
    assert_eq!(p.b, 0);
}

#[test]
fn uniform_draws_stay_in_the_unit_interval() {
    for _ in 0..1000 {
        let d = draw_unit();
        assert!(0 <= d && d < FX_ONE);
    }
}
