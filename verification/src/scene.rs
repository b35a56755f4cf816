//! Light-transport decisions: Russian-roulette scattering of photons,
//! Snell refraction with Schlick's Fresnel approximation, direct
//! illumination, and the composition of a traced ray's color.  The
//! geometry provider and the random directions are handed in as plain
//! values; every decision and every formula here is verified.

use vstd::prelude::*;

use crate::fixed::{fx_div, fx_mul, fx_sqrt, tdiv};
use crate::material::{color_in_range, max_channel, Color};
use crate::photonmap::POWER_LIMIT;
use crate::vector3::{dot_raw, vec_bounded, Vector3, UNIT_LIMIT};
use crate::FX_ONE;

verus! {

/// Rays and photons stop after this many bounces.
pub const MAX_DEPTH: u8 = 6;

/// The tag carried by an in-flight photon: which kind of surface it
/// bounced off last, deciding which map receives its next deposit.
#[allow(non_camel_case_types)]
#[derive(Clone, Copy, Debug, PartialEq, Eq, Structural)]
pub enum BounceType {
    NONE,
    DIFFUSE,
    SPECULAR,
}

/// Which photon map a deposit goes to.
#[derive(Clone, Copy, Debug, PartialEq, Eq, Structural)]
pub enum MapKind {
    Global,
    Caustic,
}

/// What one scattering step decides: where the incoming sample is
/// deposited, and whether and how the photon survives.
#[derive(Clone, Copy, Debug, PartialEq, Eq, Structural)]
pub enum BounceOutcome {
    Absorb,
    Bounce { kind: BounceType, power: Color },
}

#[derive(Clone, Copy, Debug, PartialEq, Eq, Structural)]
pub struct PhotonStep {
    pub deposit: Option<MapKind>,
    pub outcome: BounceOutcome,
}

/// A point light.
#[derive(Clone, Copy, Debug, PartialEq, Eq, Structural)]
pub struct Light {
    pub position: Vector3,
    pub color: Color,
    pub intensity: i64,
}

impl Light {
    pub fn new(position: &Vector3, color: Color, intensity: i64) -> (r: Light)
        ensures
            r == (Light { position: *position, color, intensity }),
    {
        Light { position: *position, color, intensity }
    }
}

/// Componentwise fixed-point product of two colors, as a value.
pub open spec fn color_mul_fx(a: Color, b: Color) -> Color {
    Color {
        r: tdiv(a.r * b.r, FX_ONE as int) as i64,
        g: tdiv(a.g * b.g, FX_ONE as int) as i64,
        b: tdiv(a.b * b.b, FX_ONE as int) as i64,
    }
}

/// The probability that a photon is scattered rather than absorbed by a
/// surface with the given reflectance, for the given incoming power: the
/// ratio of the dominant channel of `coefficient * power` to the dominant
/// channel of `power`.
pub open spec fn reflect_probability_spec(coefficient: Color, power: Color) -> int {
    tdiv(max_channel(color_mul_fx(coefficient, power)) * FX_ONE, max_channel(power))
}

/// The power a surviving photon carries on: the incoming power filtered by
/// the surface reflectance and divided by the selection probability.
pub open spec fn survival_power(power: Color, coefficient: Color, p: int) -> Color {
    Color {
        r: tdiv(tdiv(power.r * coefficient.r, FX_ONE as int) * FX_ONE, p) as i64,
        g: tdiv(tdiv(power.g * coefficient.g, FX_ONE as int) * FX_ONE, p) as i64,
        b: tdiv(tdiv(power.b * coefficient.b, FX_ONE as int) * FX_ONE, p) as i64,
    }
}

/// The map that receives a photon's incoming sample: none on the first
/// bounce from the light, the caustic map right after a specular bounce,
/// the global map right after a diffuse one.
pub open spec fn deposit_rule(depth: u8, prior: BounceType) -> Option<MapKind> {
    if depth == 0 {
        None
    } else {
        match prior {
            BounceType::DIFFUSE => Some(MapKind::Global),
            BounceType::SPECULAR => Some(MapKind::Caustic),
            BounceType::NONE => None,
        }
    }
}

/// The cumulative intensity of the first `k` lights.
pub open spec fn cum_intensity(lights: Seq<Light>, k: int) -> int
    decreases k,
{
    if k <= 0 {
        0
    } else {
        cum_intensity(lights, k - 1) + lights[k - 1].intensity
    }
}

/// `reflect_probability` computes `reflect_probability_spec` exactly and
/// the result is a probability: between zero and one.
pub fn reflect_probability(coefficient: &Color, power: &Color) -> (r: i64)
    requires
        color_in_range(*coefficient, 0, FX_ONE as int),
        color_in_range(*power, 0, POWER_LIMIT as int),
        max_channel(*power) > 0,
    ensures
        r == reflect_probability_spec(*coefficient, *power),
        0 <= r <= FX_ONE,
{
    proof {
        lemma_scale_le(coefficient.r as int, power.r as int);
        lemma_scale_le(coefficient.g as int, power.g as int);
        lemma_scale_le(coefficient.b as int, power.b as int);
    }
    let filtered = coefficient.mul(power);
    let num = filtered.max();
    let den = power.max();
    proof {
        lemma_ratio_at_most_one(num as int, den as int);
    }
    let q: i128 = (num as i128) * 65536 / (den as i128);
    proof {
        assert((num as int) * 65536 == num * FX_ONE);
    }
    q as i64
}

/// Filtering a power channel by a reflectance of at most one shrinks it.
proof fn lemma_scale_le(k: int, c: int)
    requires
        0 <= k <= FX_ONE,
        0 <= c <= POWER_LIMIT,
    ensures
        0 <= tdiv(k * c, FX_ONE as int) <= c,
{
    assert(0 <= k * c <= c * FX_ONE) by (nonlinear_arith)
        requires
            0 <= k <= FX_ONE,
            0 <= c,
    ;
    assert(k * c / (FX_ONE as int) <= c * FX_ONE / (FX_ONE as int)) by (nonlinear_arith)
        requires
            k * c <= c * FX_ONE,
    ;
    assert(c * FX_ONE / (FX_ONE as int) == c) by (nonlinear_arith);
    assert(k * c / (FX_ONE as int) >= 0) by (nonlinear_arith)
        requires
            k * c >= 0,
    ;
}

/// A ratio of a smaller to a larger non-negative value, scaled by one, is
/// at most one.
proof fn lemma_ratio_at_most_one(num: int, den: int)
    requires
        0 <= num <= den,
        0 < den,
    ensures
        0 <= tdiv(num * FX_ONE, den) <= FX_ONE,
        num * FX_ONE <= den * FX_ONE,
{
    assert(0 <= num * FX_ONE <= den * FX_ONE) by (nonlinear_arith)
        requires
            0 <= num <= den,
    ;
    assert(num * FX_ONE / den <= den * FX_ONE / den) by (nonlinear_arith)
        requires
            num * FX_ONE <= den * FX_ONE,
            den > 0,
    ;
    assert(den * FX_ONE / den == FX_ONE) by (nonlinear_arith)
        requires
            den > 0,
    ;
    assert(num * FX_ONE / den >= 0) by (nonlinear_arith)
        requires
            num * FX_ONE >= 0,
            den > 0,
    ;
}

/// Which branch a single uniform draw selects: diffuse below `p_diffuse`,
/// specular in the next band of width `p_specular`, absorption above both.
pub fn select_bounce(p_diffuse: i64, p_specular: i64, draw: i64) -> (r: BounceType)
    requires
        0 <= p_diffuse,
        0 <= p_specular,
        p_diffuse + p_specular <= i64::MAX,
        0 <= draw,
    ensures
        r == BounceType::DIFFUSE <==> draw < p_diffuse,
        r == BounceType::SPECULAR <==> (p_diffuse <= draw < p_diffuse + p_specular),
        r == BounceType::NONE <==> draw >= p_diffuse + p_specular,
{
    if draw < p_diffuse {
        BounceType::DIFFUSE
    } else if draw < p_diffuse + p_specular {
        BounceType::SPECULAR
    } else {
        BounceType::NONE
    }
}

/// One Russian-roulette step on an opaque surface, for a given draw: the
/// deposit obeys `deposit_rule`, and the three draw bands select a
/// diffuse bounce, a specular bounce, or absorption, each surviving
/// branch's power divided by its selection probability.
pub fn photon_bounce_step(
    diffuse_color: &Color,
    reflect_color: &Color,
    power: &Color,
    depth: u8,
    prior: BounceType,
    draw: i64,
) -> (r: PhotonStep)
    requires
        color_in_range(*diffuse_color, 0, FX_ONE as int),
        color_in_range(*reflect_color, 0, FX_ONE as int),
        color_in_range(*power, 0, POWER_LIMIT as int),
        max_channel(*power) > 0,
        0 <= draw < FX_ONE,
    ensures
        r.deposit == deposit_rule(depth, prior),
        ({
            let pd = reflect_probability_spec(*diffuse_color, *power);
            let ps = reflect_probability_spec(*reflect_color, *power);
            if draw < pd {
                r.outcome == (BounceOutcome::Bounce {
                    kind: BounceType::DIFFUSE,
                    power: survival_power(*power, *diffuse_color, pd),
                })
            } else if draw < pd + ps {
                r.outcome == (BounceOutcome::Bounce {
                    kind: BounceType::SPECULAR,
                    power: survival_power(*power, *reflect_color, ps),
                })
            } else {
                r.outcome == BounceOutcome::Absorb
            }
        }),
{
    let pd = reflect_probability(diffuse_color, power);
    let ps = reflect_probability(reflect_color, power);
    let kind = select_bounce(pd, ps, draw);
    let deposit = if depth == 0 {
        None
    } else {
        match prior {
            BounceType::DIFFUSE => Some(MapKind::Global),
            BounceType::SPECULAR => Some(MapKind::Caustic),
            BounceType::NONE => None,
        }
    };
    let outcome = match kind {
        BounceType::DIFFUSE => BounceOutcome::Bounce {
            kind: BounceType::DIFFUSE,
            power: scale_survival(power, diffuse_color, pd),
        },
        BounceType::SPECULAR => BounceOutcome::Bounce {
            kind: BounceType::SPECULAR,
            power: scale_survival(power, reflect_color, ps),
        },
        BounceType::NONE => BounceOutcome::Absorb,
    };
    PhotonStep { deposit, outcome }
}

/// The surviving photon's power, `power * coefficient / p`, exactly.
fn scale_survival(power: &Color, coefficient: &Color, p: i64) -> (r: Color)
    requires
        color_in_range(*power, 0, POWER_LIMIT as int),
        color_in_range(*coefficient, 0, FX_ONE as int),
        0 < p <= FX_ONE,
    ensures
        r == survival_power(*power, *coefficient, p as int),
{
    proof {
        lemma_scale_le(coefficient.r as int, power.r as int);
        lemma_scale_le(coefficient.g as int, power.g as int);
        lemma_scale_le(coefficient.b as int, power.b as int);
    }
    let filtered = power.mul(coefficient);
    let rr = divide_by_probability(filtered.r, p);
    let rg = divide_by_probability(filtered.g, p);
    let rb = divide_by_probability(filtered.b, p);
    Color { r: rr, g: rg, b: rb }
}

/// `c * FX_ONE / p` for a non-negative channel and a positive probability.
fn divide_by_probability(c: i64, p: i64) -> (r: i64)
    requires
        0 <= c <= POWER_LIMIT,
        0 < p,
    ensures
        r == tdiv(c * FX_ONE, p as int),
{
    proof {
        assert(0 <= (c as int) * 65536 <= 0x1_0000_0000_0000_0000) by (nonlinear_arith)
            requires
                0 <= c <= POWER_LIMIT,
        ;
        assert((c as int) * 65536 / (p as int) <= (c as int) * 65536) by (nonlinear_arith)
            requires
                0 <= (c as int) * 65536,
                p > 0,
        ;
    }
    let q: i128 = (c as i128) * 65536 / (p as i128);
    proof {
        assert((c as int) * 65536 == c * FX_ONE);
    }
    q as i64
}

/// The Snell discriminant of a refraction through a boundary with indices
/// `n` (incoming side) and `nt` (outgoing side):
/// `1 - n^2 * (1 - (d . n)^2) / nt^2` in fixed point.  Negative means
/// total internal reflection.
pub open spec fn snell_discriminant(direction: Vector3, normal: Vector3, n: int, nt: int) -> int {
    let dn = tdiv(dot_raw(direction, normal), FX_ONE as int);
    let n2 = tdiv(n * n, FX_ONE as int);
    let nt2 = tdiv(nt * nt, FX_ONE as int);
    let one_minus = FX_ONE - tdiv(dn * dn, FX_ONE as int);
    FX_ONE - tdiv(tdiv(n2 * one_minus, FX_ONE as int) * FX_ONE, nt2)
}

/// The transmitted direction when the discriminant is non-negative:
/// `n * (d - nrm * (d . nrm)) / nt - nrm * sqrt(k)`.
pub open spec fn refracted_dir(direction: Vector3, normal: Vector3, n: int, nt: int) -> Vector3 {
    let dn = tdiv(dot_raw(direction, normal), FX_ONE as int);
    let k = snell_discriminant(direction, normal, n, nt);
    let w = crate::vector3::isqrt_spec(k * FX_ONE);
    Vector3 {
        x: (tdiv(tdiv(n * (direction.x - tdiv(dn * normal.x, FX_ONE as int)), FX_ONE as int)
            * FX_ONE, nt) - tdiv(w * normal.x, FX_ONE as int)) as i64,
        y: (tdiv(tdiv(n * (direction.y - tdiv(dn * normal.y, FX_ONE as int)), FX_ONE as int)
            * FX_ONE, nt) - tdiv(w * normal.y, FX_ONE as int)) as i64,
        z: (tdiv(tdiv(n * (direction.z - tdiv(dn * normal.z, FX_ONE as int)), FX_ONE as int)
            * FX_ONE, nt) - tdiv(w * normal.z, FX_ONE as int)) as i64,
    }
}

/// Snell refraction: `None` exactly when the discriminant is negative
/// (total internal reflection), otherwise the transmitted direction.
pub fn refract(direction: &Vector3, normal: &Vector3, n: i64, nt: i64) -> (r: Option<Vector3>)
    requires
        vec_bounded(*direction, UNIT_LIMIT as int),
        vec_bounded(*normal, UNIT_LIMIT as int),
        16384 <= n <= 1048576,
        16384 <= nt <= 1048576,
    ensures
        r is None <==> snell_discriminant(*direction, *normal, n as int, nt as int) < 0,
        r is Some ==> r->0 == refracted_dir(*direction, *normal, n as int, nt as int),
{
    proof {
        crate::vector3::lemma_reflect_spec_bounded(*direction, *normal);
        crate::vector3::lemma_tdiv_shrinks(
            dot_raw(*direction, *normal),
            3 * (UNIT_LIMIT as int) * UNIT_LIMIT,
        );
    }
    let dn = direction.inner_product(normal);
    proof {
        crate::vector3::lemma_abs_prod_bound(n as int, n as int, 0x10_0000);
        crate::vector3::lemma_abs_prod_bound(nt as int, nt as int, 0x10_0000);
        crate::vector3::lemma_abs_prod_bound(dn as int, dn as int, 0x10_0000);
        crate::vector3::lemma_tdiv_div_le(n * n, 0x100_0000_0000);
        crate::vector3::lemma_tdiv_div_le(nt * nt, 0x100_0000_0000);
        crate::vector3::lemma_tdiv_div_le((dn as int) * (dn as int), 0x100_0000_0000);
        assert(0x100_0000_0000int / (FX_ONE as int) == 0x100_0000);
        lemma_nt2_lower(nt as int);
    }
    let n2 = fx_mul(n, n);
    let nt2 = fx_mul(nt, nt);
    let dn2 = fx_mul(dn, dn);
    let one_minus = FX_ONE - dn2;
    proof {
        crate::vector3::lemma_abs_prod_bound(n2 as int, one_minus as int, 0x200_0000);
        crate::vector3::lemma_tdiv_div_le((n2 as int) * (one_minus as int), 0x4_0000_0000_0000);
        assert(0x4_0000_0000_0000int / (FX_ONE as int) == 0x4_0000_0000);
    }
    let a = fx_mul(n2, one_minus);
    proof {
        lemma_refract_quotient_bound(a as int, nt2 as int);
    }
    let b = fx_div(a, nt2);
    let k = FX_ONE - b;
    if k < 0 {
        return None;
    }
    let w = fx_sqrt(k);
    proof {
        assert(w <= 0x1000_0000) by (nonlinear_arith)
            requires
                0 <= w,
                w * w <= k * FX_ONE,
                0 <= k <= 0x80_0000_0000,
        ;
        assert(w == crate::vector3::isqrt_spec(k * FX_ONE)) by {
            crate::vector3::lemma_isqrt_spec_agrees(k * FX_ONE, w as int);
        }
    }
    let tx = refract_component(direction.x, dn, normal.x, n, nt, w);
    let ty = refract_component(direction.y, dn, normal.y, n, nt, w);
    let tz = refract_component(direction.z, dn, normal.z, n, nt, w);
    Some(Vector3 { x: tx, y: ty, z: tz })
}

/// One component of the transmitted direction.
fn refract_component(dc: i64, dn: i64, nc: i64, n: i64, nt: i64, w: i64) -> (r: i64)
    requires
        -(UNIT_LIMIT as int) <= dc <= UNIT_LIMIT as int,
        -(UNIT_LIMIT as int) <= nc <= UNIT_LIMIT as int,
        -786432 <= dn <= 786432,
        16384 <= n <= 1048576,
        16384 <= nt <= 1048576,
        0 <= w <= 0x1000_0000,
    ensures
        r == tdiv(tdiv(n * (dc - tdiv(dn * nc, FX_ONE as int)), FX_ONE as int) * FX_ONE, nt as int)
            - tdiv(w * nc, FX_ONE as int),
{
    proof {
        crate::vector3::lemma_abs_prod_bound(dn as int, nc as int, 0x10_0000);
        crate::vector3::lemma_tdiv_div_le((dn as int) * (nc as int), 0x100_0000_0000);
        assert(0x100_0000_0000int / (FX_ONE as int) == 0x100_0000);
    }
    let u = dc - fx_mul(dn, nc);
    proof {
        crate::vector3::lemma_abs_prod_bound(n as int, u as int, 0x200_0000);
        crate::vector3::lemma_tdiv_div_le((n as int) * (u as int), 0x4_0000_0000_0000);
        assert(0x4_0000_0000_0000int / (FX_ONE as int) == 0x4_0000_0000);
    }
    let v = fx_mul(n, u);
    proof {
        lemma_fx_div_fits(v as int, nt as int);
        crate::vector3::lemma_abs_prod_bound(w as int, nc as int, 0x1000_0000);
        crate::vector3::lemma_tdiv_div_le((w as int) * (nc as int), 0x1_0000_0000_0000_0000);
        assert(0x1_0000_0000_0000_0000int / (FX_ONE as int) == 0x1_0000_0000_0000);
    }
    let vv = fx_div(v, nt);
    let s = fx_mul(w, nc);
    vv - s
}

/// Raising a fixed-point value in `[0, 1]` to the fifth power.
pub open spec fn pow5_fx(x: int) -> int {
    let x2 = tdiv(x * x, FX_ONE as int);
    let x4 = tdiv(x2 * x2, FX_ONE as int);
    tdiv(x4 * x, FX_ONE as int)
}

/// Schlick's approximation of the Fresnel reflectance for a boundary with
/// outgoing index `nt` and incidence cosine `c`:
/// `r0 + (1 - r0) * (1 - c)^5` with `r0 = ((nt - 1) / (nt + 1))^2`.
pub open spec fn schlick_spec(nt: int, c: int) -> int {
    let a = tdiv((nt - FX_ONE) * FX_ONE, nt + FX_ONE);
    let r0 = tdiv(a * a, FX_ONE as int);
    r0 + tdiv((FX_ONE - r0) * pow5_fx(FX_ONE - c), FX_ONE as int)
}

/// `schlick_reflectance` computes `schlick_spec` exactly, and the result
/// is a fraction between zero and one.
pub fn schlick_reflectance(nt: i64, c: i64) -> (r: i64)
    requires
        16384 <= nt <= 1048576,
        0 <= c <= FX_ONE,
    ensures
        r == schlick_spec(nt as int, c as int),
        0 <= r <= FX_ONE,
{
    proof {
        lemma_abs_ratio_at_most_one((nt - FX_ONE) as int, (nt + FX_ONE) as int);
    }
    let num: i64 = nt - FX_ONE;
    let den: i64 = nt + FX_ONE;
    let a = fx_div(num, den);
    proof {
        lemma_unit_square_range(a as int);
    }
    let r0 = fx_mul(a, a);
    let x = FX_ONE - c;
    proof {
        lemma_unit_mul_range(x as int, x as int);
    }
    let x2 = fx_mul(x, x);
    proof {
        lemma_unit_mul_range(x2 as int, x2 as int);
    }
    let x4 = fx_mul(x2, x2);
    proof {
        lemma_unit_mul_range(x4 as int, x as int);
    }
    let p5 = fx_mul(x4, x);
    proof {
        lemma_unit_mul_range((FX_ONE - r0) as int, p5 as int);
        lemma_scale_le(p5 as int, (FX_ONE - r0) as int);
    }
    let tail = fx_mul(FX_ONE - r0, p5);
    r0 + tail
}

/// How a dielectric splits a ray: total internal reflection puts the full
/// weight on the reflected branch, otherwise the Fresnel reflectance `r`
/// goes to reflection and `1 - r` to transmission.
pub fn dielectric_weights(refraction: &Option<Vector3>, reflectance: i64) -> (r: (i64, i64))
    requires
        0 <= reflectance <= FX_ONE,
    ensures
        refraction is None ==> r == (FX_ONE, 0i64),
        refraction is Some ==> r == (reflectance, (FX_ONE - reflectance) as i64),
{
    match refraction {
        Option::None => (FX_ONE, 0),
        Option::Some(_) => (reflectance, FX_ONE - reflectance),
    }
}

/// Whether a single draw sends a photon down the reflected branch of a
/// dielectric (probability `reflectance`) rather than the transmitted one.
pub fn choose_dielectric_branch(reflectance: i64, draw: i64) -> (r: bool)
    ensures
        r <==> draw < reflectance,
{
    draw < reflectance
}

/// Whether tracing stops at this recursion depth.
pub fn should_terminate(depth: u8) -> (r: bool)
    ensures
        r <==> depth >= MAX_DEPTH,
{
    depth >= MAX_DEPTH
}

/// The light a single draw selects, each light weighted by its intensity:
/// the unique index whose cumulative band contains the draw.
pub fn pick_light(lights: &Vec<Light>, draw: i64) -> (r: usize)
    requires
        lights@.len() > 0,
        forall|i: int| 0 <= i < lights@.len() ==> 0 <= (#[trigger] lights@[i]).intensity,
        cum_intensity(lights@, lights@.len() as int) <= i64::MAX,
        0 <= draw < cum_intensity(lights@, lights@.len() as int),
    ensures
        r < lights@.len(),
        cum_intensity(lights@, r as int) <= draw < cum_intensity(lights@, r as int + 1),
        lights@[r as int].intensity > 0,
{
    let n = lights.len();
    let mut acc: i64 = 0;
    let mut i: usize = 0;
    while i < n
        invariant
            0 <= i <= n,
            n == lights@.len(),
            forall|k: int| 0 <= k < n ==> 0 <= (#[trigger] lights@[k]).intensity,
            cum_intensity(lights@, n as int) <= i64::MAX,
            0 <= draw < cum_intensity(lights@, n as int),
            acc == cum_intensity(lights@, i as int),
            acc <= draw,
        decreases n - i,
    {
        proof {
            lemma_cum_monotone(lights@, i + 1, n as int);
        }
        let w = vstd::std_specs::vec::vec_index(lights, i).intensity;
        if draw < acc + w {
            return i;
        }
        acc = acc + w;
        i = i + 1;
    }
    proof {
        assert(acc == cum_intensity(lights@, n as int));
        assert(false);
    }
    0
}

/// Cumulative intensities grow with the index when intensities are
/// non-negative.
proof fn lemma_cum_monotone(lights: Seq<Light>, a: int, b: int)
    requires
        a <= b,
        forall|k: int| 0 <= k < lights.len() ==> 0 <= (#[trigger] lights[k]).intensity,
        b <= lights.len(),
        0 <= a,
    ensures
        cum_intensity(lights, a) <= cum_intensity(lights, b),
    decreases b - a,
{
    if a < b {
        lemma_cum_monotone(lights, a, b - 1);
    }
}

/// A freshly emitted photon's power: the light's intensity-weighted color
/// divided by the total photon budget.
pub fn photon_power(light: &Light, n_photons: usize) -> (r: Color)
    requires
        0 <= light.intensity <= POWER_LIMIT,
        color_in_range(light.color, 0, FX_ONE as int),
        0 < n_photons <= 0x7fff_ffff_ffff_ffff,
    ensures
        r.r == tdiv(tdiv(light.intensity * light.color.r, FX_ONE as int), n_photons as int),
        r.g == tdiv(tdiv(light.intensity * light.color.g, FX_ONE as int), n_photons as int),
        r.b == tdiv(tdiv(light.intensity * light.color.b, FX_ONE as int), n_photons as int),
        color_in_range(r, 0, POWER_LIMIT as int),
{
    proof {
        lemma_scale_le(light.color.r as int, light.intensity as int);
        lemma_scale_le(light.color.g as int, light.intensity as int);
        lemma_scale_le(light.color.b as int, light.intensity as int);
    }
    let scaled = Color {
        r: fx_mul(light.intensity, light.color.r),
        g: fx_mul(light.intensity, light.color.g),
        b: fx_mul(light.intensity, light.color.b),
    };
    proof {
        lemma_budget_div(scaled.r as int, n_photons as int);
        lemma_budget_div(scaled.g as int, n_photons as int);
        lemma_budget_div(scaled.b as int, n_photons as int);
    }
    let n = n_photons as i64;
    Color { r: scaled.r / n, g: scaled.g / n, b: scaled.b / n }
}

/// Dividing a non-negative channel by a positive budget shrinks it, and
/// the machine quotient is the truncating quotient.
proof fn lemma_budget_div(c: int, n: int)
    requires
        0 <= c <= POWER_LIMIT,
        0 < n,
    ensures
        0 <= tdiv(c, n) <= c,
        tdiv(c, n) == c / n,
{
    assert(c / n <= c) by (nonlinear_arith)
        requires
            0 <= c,
            0 < n,
    ;
    assert(c / n >= 0) by (nonlinear_arith)
        requires
            0 <= c,
            0 < n,
    ;
}

/// What the tracer knows of one light when shading a hit: the light's
/// color, the unit direction from the hit point toward it, and whether a
/// shadow ray found an occluder strictly between the two.
#[derive(Clone, Copy, Debug, PartialEq, Eq, Structural)]
pub struct LightSample {
    pub color: Color,
    pub dir: Vector3,
    pub occluded: bool,
}

/// A value clamped to the fixed-point unit interval.
pub open spec fn clamp01_fx(v: int) -> int {
    if v < 0 {
        0
    } else if v > FX_ONE {
        FX_ONE as int
    } else {
        v
    }
}

/// A value clamped below at zero.
pub open spec fn clamp0_fx(v: int) -> int {
    if v < 0 {
        0
    } else {
        v
    }
}

/// The componentwise negation of a vector.
pub open spec fn vneg(v: Vector3) -> Vector3 {
    Vector3 { x: (-v.x) as i64, y: (-v.y) as i64, z: (-v.z) as i64 }
}

/// Repeated fixed-point self-multiplication: `x^e` for `x` in `[0, 1]`.
pub open spec fn pow_fx(x: int, e: nat) -> int
    decreases e,
{
    if e == 0 {
        FX_ONE as int
    } else {
        tdiv(x * pow_fx(x, (e - 1) as nat), FX_ONE as int)
    }
}

/// `fx_pow` computes `pow_fx` exactly; powers of fractions stay fractions.
pub fn fx_pow(x: i64, e: u32) -> (r: i64)
    requires
        0 <= x <= FX_ONE,
    ensures
        r == pow_fx(x as int, e as nat),
        0 <= r <= FX_ONE,
{
    let mut acc: i64 = FX_ONE;
    let mut i: u32 = 0;
    while i < e
        invariant
            0 <= x <= FX_ONE,
            0 <= acc <= FX_ONE,
            acc == pow_fx(x as int, i as nat),
            i <= e,
        decreases e - i,
    {
        proof {
            lemma_unit_mul_range(x as int, acc as int);
        }
        acc = fx_mul(x, acc);
        i = i + 1;
    }
    acc
}

/// One light's Lambertian contribution:
/// `color * diffuse * max(0, normal . dir)`, zero when occluded.
pub open spec fn lambert_term(sample: LightSample, normal: Vector3, diffuse: Color) -> Color {
    if sample.occluded {
        Color { r: 0i64, g: 0i64, b: 0i64 }
    } else {
        let ndl = clamp0_fx(tdiv(dot_raw(normal, sample.dir), FX_ONE as int));
        Color {
            r: tdiv(tdiv(sample.color.r * diffuse.r, FX_ONE as int) * ndl, FX_ONE as int) as i64,
            g: tdiv(tdiv(sample.color.g * diffuse.g, FX_ONE as int) * ndl, FX_ONE as int) as i64,
            b: tdiv(tdiv(sample.color.b * diffuse.b, FX_ONE as int) * ndl, FX_ONE as int) as i64,
        }
    }
}

/// One light's Phong contribution: the cosine between the mirrored light
/// direction and the view direction, clamped to the unit interval, raised
/// to the material's exponent and weighted by the light color; zero when
/// occluded.
pub open spec fn phong_term(
    sample: LightSample,
    normal: Vector3,
    ray_dir: Vector3,
    exponent: u32,
) -> Color {
    if sample.occluded {
        Color { r: 0i64, g: 0i64, b: 0i64 }
    } else {
        let mirrored = crate::vector3::reflect_spec(vneg(sample.dir), normal);
        let rv = clamp01_fx(-tdiv(dot_raw(mirrored, ray_dir), FX_ONE as int));
        let p = pow_fx(rv, exponent as nat);
        Color {
            r: tdiv(sample.color.r * p, FX_ONE as int) as i64,
            g: tdiv(sample.color.g * p, FX_ONE as int) as i64,
            b: tdiv(sample.color.b * p, FX_ONE as int) as i64,
        }
    }
}

/// The sum of the Lambertian contributions of the first `k` samples.
pub open spec fn diffuse_acc(
    samples: Seq<LightSample>,
    normal: Vector3,
    diffuse: Color,
    k: int,
) -> Color
    decreases k,
{
    if k <= 0 {
        Color { r: 0i64, g: 0i64, b: 0i64 }
    } else {
        let rest = diffuse_acc(samples, normal, diffuse, k - 1);
        let t = lambert_term(samples[k - 1], normal, diffuse);
        Color {
            r: (rest.r + t.r) as i64,
            g: (rest.g + t.g) as i64,
            b: (rest.b + t.b) as i64,
        }
    }
}

/// The sum of the Phong contributions of the first `k` samples.
pub open spec fn specular_acc(
    samples: Seq<LightSample>,
    normal: Vector3,
    ray_dir: Vector3,
    exponent: u32,
    k: int,
) -> Color
    decreases k,
{
    if k <= 0 {
        Color { r: 0i64, g: 0i64, b: 0i64 }
    } else {
        let rest = specular_acc(samples, normal, ray_dir, exponent, k - 1);
        let t = phong_term(samples[k - 1], normal, ray_dir, exponent);
        Color {
            r: (rest.r + t.r) as i64,
            g: (rest.g + t.g) as i64,
            b: (rest.b + t.b) as i64,
        }
    }
}

/// Direct lighting at a hit: for every unoccluded light, accumulate its
/// Lambertian diffuse and Phong specular contributions.
pub fn direct_illumination(
    samples: &Vec<LightSample>,
    hit_normal: &Vector3,
    ray_direction: &Vector3,
    diffuse_color: &Color,
    specular_exponent: u32,
) -> (r: (Color, Color))
    requires
        samples@.len() <= 0x10_0000,
        forall|i: int|
            0 <= i < samples@.len() ==> {
                let s = #[trigger] samples@[i];
                color_in_range(s.color, 0, FX_ONE as int) && vec_bounded(s.dir, FX_ONE as int)
            },
        vec_bounded(*hit_normal, UNIT_LIMIT as int),
        vec_bounded(*ray_direction, FX_ONE as int),
        color_in_range(*diffuse_color, 0, FX_ONE as int),
    ensures
        r.0 == diffuse_acc(samples@, *hit_normal, *diffuse_color, samples@.len() as int),
        r.1 == specular_acc(
            samples@,
            *hit_normal,
            *ray_direction,
            specular_exponent,
            samples@.len() as int,
        ),
{
    let n = samples.len();
    let mut dr: i64 = 0;
    let mut dg: i64 = 0;
    let mut db: i64 = 0;
    let mut sr: i64 = 0;
    let mut sg: i64 = 0;
    let mut sb: i64 = 0;
    let mut i: usize = 0;
    while i < n
        invariant
            0 <= i <= n,
            n == samples@.len(),
            n <= 0x10_0000,
            forall|k: int|
                0 <= k < samples@.len() ==> {
                    let s = #[trigger] samples@[k];
                    color_in_range(s.color, 0, FX_ONE as int) && vec_bounded(
                        s.dir,
                        FX_ONE as int,
                    )
                },
            vec_bounded(*hit_normal, UNIT_LIMIT as int),
            vec_bounded(*ray_direction, FX_ONE as int),
            color_in_range(*diffuse_color, 0, FX_ONE as int),
            ({
                let d = diffuse_acc(samples@, *hit_normal, *diffuse_color, i as int);
                dr == d.r && dg == d.g && db == d.b
            }),
            ({
                let s = specular_acc(
                    samples@,
                    *hit_normal,
                    *ray_direction,
                    specular_exponent,
                    i as int,
                );
                sr == s.r && sg == s.g && sb == s.b
            }),
            0 <= dr <= i * 0x100_0000,
            0 <= dg <= i * 0x100_0000,
            0 <= db <= i * 0x100_0000,
            0 <= sr <= i * 0x1_0000,
            0 <= sg <= i * 0x1_0000,
            0 <= sb <= i * 0x1_0000,
        decreases n - i,
    {
        let s = *vstd::std_specs::vec::vec_index(samples, i);
        proof {
            assert((i + 1) * 0x100_0000 == i * 0x100_0000 + 0x100_0000) by (nonlinear_arith);
            assert((i + 1) * 0x1_0000 == i * 0x1_0000 + 0x1_0000) by (nonlinear_arith);
            assert((i + 1) * 0x100_0000 <= 0x10_0000 * 0x100_0000) by (nonlinear_arith)
                requires
                    i + 1 <= 0x10_0000,
            ;
            assert((i + 1) * 0x1_0000 <= 0x10_0000 * 0x1_0000) by (nonlinear_arith)
                requires
                    i + 1 <= 0x10_0000,
            ;
        }
        if !s.occluded {
            proof {
                crate::vector3::lemma_abs_prod_bound(
                    hit_normal.x as int,
                    s.dir.x as int,
                    UNIT_LIMIT as int,
                );
                crate::vector3::lemma_abs_prod_bound(
                    hit_normal.y as int,
                    s.dir.y as int,
                    UNIT_LIMIT as int,
                );
                crate::vector3::lemma_abs_prod_bound(
                    hit_normal.z as int,
                    s.dir.z as int,
                    UNIT_LIMIT as int,
                );
                crate::vector3::lemma_tdiv_div_le(
                    dot_raw(*hit_normal, s.dir),
                    3 * (UNIT_LIMIT as int) * UNIT_LIMIT,
                );
                assert(3 * (UNIT_LIMIT as int) * UNIT_LIMIT == 51539607552);
                assert(51539607552int / (FX_ONE as int) == 786432);
            }
            let cosl = hit_normal.inner_product(&s.dir);
            let ndl = if cosl > 0 {
                cosl
            } else {
                0
            };
            proof {
                lemma_unit_mul_range(s.color.r as int, diffuse_color.r as int);
                lemma_unit_mul_range(s.color.g as int, diffuse_color.g as int);
                lemma_unit_mul_range(s.color.b as int, diffuse_color.b as int);
            }
            let t1r = fx_mul(s.color.r, diffuse_color.r);
            let t1g = fx_mul(s.color.g, diffuse_color.g);
            let t1b = fx_mul(s.color.b, diffuse_color.b);
            proof {
                lemma_lambert_channel(t1r as int, ndl as int);
                lemma_lambert_channel(t1g as int, ndl as int);
                lemma_lambert_channel(t1b as int, ndl as int);
            }
            dr = dr + fx_mul(t1r, ndl);
            dg = dg + fx_mul(t1g, ndl);
            db = db + fx_mul(t1b, ndl);
            let nd = s.dir.neg();
            let mirrored = nd.reflect(hit_normal);
            proof {
                assert(nd == vneg(s.dir));
                crate::vector3::lemma_abs_prod_bound(
                    mirrored.x as int,
                    ray_direction.x as int,
                    27 * (UNIT_LIMIT as int),
                );
                crate::vector3::lemma_abs_prod_bound(
                    mirrored.y as int,
                    ray_direction.y as int,
                    27 * (UNIT_LIMIT as int),
                );
                crate::vector3::lemma_abs_prod_bound(
                    mirrored.z as int,
                    ray_direction.z as int,
                    27 * (UNIT_LIMIT as int),
                );
                crate::vector3::lemma_tdiv_shrinks(
                    dot_raw(mirrored, *ray_direction),
                    3 * (27 * (UNIT_LIMIT as int)) * (27 * (UNIT_LIMIT as int)),
                );
            }
            let cosr = mirrored.inner_product(ray_direction);
            let negcos = -cosr;
            let rv = if negcos < 0 {
                0
            } else if negcos > FX_ONE {
                FX_ONE
            } else {
                negcos
            };
            let p = fx_pow(rv, specular_exponent);
            proof {
                lemma_unit_mul_range(s.color.r as int, p as int);
                lemma_unit_mul_range(s.color.g as int, p as int);
                lemma_unit_mul_range(s.color.b as int, p as int);
            }
            sr = sr + fx_mul(s.color.r, p);
            sg = sg + fx_mul(s.color.g, p);
            sb = sb + fx_mul(s.color.b, p);
        }
        i = i + 1;
    }
    (Color { r: dr, g: dg, b: db }, Color { r: sr, g: sg, b: sb })
}

/// A Lambertian channel term is non-negative and small: a fraction times
/// a clamped cosine of a near-unit pair.
proof fn lemma_lambert_channel(t: int, ndl: int)
    requires
        0 <= t <= FX_ONE,
        0 <= ndl <= 786432,
    ensures
        0 <= tdiv(t * ndl, FX_ONE as int) <= 0x100_0000,
{
    assert(0 <= t * ndl <= FX_ONE * 786432) by (nonlinear_arith)
        requires
            0 <= t <= FX_ONE,
            0 <= ndl <= 786432,
    ;
    assert(t * ndl / (FX_ONE as int) <= (FX_ONE as int) * 786432 / (FX_ONE as int))
        by (nonlinear_arith)
        requires
            t * ndl <= FX_ONE * 786432,
    ;
    assert((FX_ONE as int) * 786432 / (FX_ONE as int) == 786432) by (nonlinear_arith);
    assert(t * ndl / (FX_ONE as int) >= 0) by (nonlinear_arith)
        requires
            t * ndl >= 0,
    ;
}

/// The color of an opaque surface hit: direct diffuse light, the mirror
/// term, the Phong highlight, and the photon maps' indirect light filtered
/// by the surface's diffuse color.
pub fn compose_surface_color(
    direct: &Color,
    specular: &Color,
    reflected: &Color,
    diffuse_color: &Color,
    global_color: &Color,
    caustic_color: &Color,
) -> (r: Color)
    requires
        color_in_range(*direct, 0, 0x1000_0000_0000),
        color_in_range(*specular, 0, 0x1000_0000_0000),
        color_in_range(*reflected, 0, 0x1000_0000_0000),
        color_in_range(*diffuse_color, 0, FX_ONE as int),
        color_in_range(*global_color, 0, 0x1000_0000_0000_0000),
        color_in_range(*caustic_color, 0, 0x1000_0000_0000_0000),
    ensures
        r.r == direct.r + reflected.r + specular.r + tdiv(
            diffuse_color.r * (global_color.r + caustic_color.r),
            FX_ONE as int,
        ),
        r.g == direct.g + reflected.g + specular.g + tdiv(
            diffuse_color.g * (global_color.g + caustic_color.g),
            FX_ONE as int,
        ),
        r.b == direct.b + reflected.b + specular.b + tdiv(
            diffuse_color.b * (global_color.b + caustic_color.b),
            FX_ONE as int,
        ),
{
    proof {
        lemma_indirect_channel(diffuse_color.r as int, (global_color.r + caustic_color.r) as int);
        lemma_indirect_channel(diffuse_color.g as int, (global_color.g + caustic_color.g) as int);
        lemma_indirect_channel(diffuse_color.b as int, (global_color.b + caustic_color.b) as int);
    }
    let ir = fx_mul(diffuse_color.r, global_color.r + caustic_color.r);
    let ig = fx_mul(diffuse_color.g, global_color.g + caustic_color.g);
    let ib = fx_mul(diffuse_color.b, global_color.b + caustic_color.b);
    Color {
        r: direct.r + reflected.r + specular.r + ir,
        g: direct.g + reflected.g + specular.g + ig,
        b: direct.b + reflected.b + specular.b + ib,
    }
}

/// Filtering a bounded indirect channel by a fraction keeps it bounded.
proof fn lemma_indirect_channel(d: int, v: int)
    requires
        0 <= d <= FX_ONE,
        0 <= v <= 0x2000_0000_0000_0000,
    ensures
        0 <= tdiv(d * v, FX_ONE as int) <= 0x2000_0000_0000_0000,
{
    assert(0 <= d * v <= v * FX_ONE) by (nonlinear_arith)
        requires
            0 <= d <= FX_ONE,
            0 <= v,
    ;
    assert(d * v / (FX_ONE as int) <= v * FX_ONE / (FX_ONE as int)) by (nonlinear_arith)
        requires
            d * v <= v * FX_ONE,
    ;
    assert(v * FX_ONE / (FX_ONE as int) == v) by (nonlinear_arith);
    assert(d * v / (FX_ONE as int) >= 0) by (nonlinear_arith)
        requires
            d * v >= 0,
    ;
}

/// The color of a dielectric hit: the reflected and transmitted results
/// blended by the Fresnel fraction.
pub fn combine_dielectric(reflected: &Color, transmitted: &Color, fresnel: i64) -> (r: Color)
    requires
        0 <= fresnel <= FX_ONE,
        color_in_range(*reflected, 0, 0x1000_0000_0000_0000),
        color_in_range(*transmitted, 0, 0x1000_0000_0000_0000),
    ensures
        r.r == tdiv(fresnel * reflected.r, FX_ONE as int) + tdiv(
            (FX_ONE - fresnel) * transmitted.r,
            FX_ONE as int,
        ),
        r.g == tdiv(fresnel * reflected.g, FX_ONE as int) + tdiv(
            (FX_ONE - fresnel) * transmitted.g,
            FX_ONE as int,
        ),
        r.b == tdiv(fresnel * reflected.b, FX_ONE as int) + tdiv(
            (FX_ONE - fresnel) * transmitted.b,
            FX_ONE as int,
        ),
{
    proof {
        lemma_indirect_channel(fresnel as int, reflected.r as int);
        lemma_indirect_channel(fresnel as int, reflected.g as int);
        lemma_indirect_channel(fresnel as int, reflected.b as int);
        lemma_indirect_channel((FX_ONE - fresnel) as int, transmitted.r as int);
        lemma_indirect_channel((FX_ONE - fresnel) as int, transmitted.g as int);
        lemma_indirect_channel((FX_ONE - fresnel) as int, transmitted.b as int);
    }
    Color {
        r: fx_mul(fresnel, reflected.r) + fx_mul(FX_ONE - fresnel, transmitted.r),
        g: fx_mul(fresnel, reflected.g) + fx_mul(FX_ONE - fresnel, transmitted.g),
        b: fx_mul(fresnel, reflected.b) + fx_mul(FX_ONE - fresnel, transmitted.b),
    }
}

/// Relies on rand::random: a uniformly drawn value of the requested type;
/// nothing is assumed of it beyond its type.
pub assume_specification<T>[ rand::random::<T> ]() -> (r: T)
    where
        rand::distributions::Standard: rand::distributions::Distribution<T>,
;

/// A fixed-point fraction in `[0, 1)` drawn from the thread's generator.
pub fn draw_unit() -> (r: i64)
    ensures
        0 <= r < FX_ONE,
{
    let bits: u64 = rand::random::<u64>();
    (bits % 65536) as i64
}

/// One Russian-roulette step with a fresh draw.  Whatever the draw, the
/// deposit follows `deposit_rule` and the outcome is absorption or a
/// bounce whose tag and rescaled power belong together.
pub fn random_photon_bounce(
    diffuse_color: &Color,
    reflect_color: &Color,
    power: &Color,
    depth: u8,
    prior: BounceType,
) -> (r: PhotonStep)
    requires
        color_in_range(*diffuse_color, 0, FX_ONE as int),
        color_in_range(*reflect_color, 0, FX_ONE as int),
        color_in_range(*power, 0, POWER_LIMIT as int),
        max_channel(*power) > 0,
    ensures
        r.deposit == deposit_rule(depth, prior),
        r.outcome == BounceOutcome::Absorb || r.outcome == (BounceOutcome::Bounce {
            kind: BounceType::DIFFUSE,
            power: survival_power(
                *power,
                *diffuse_color,
                reflect_probability_spec(*diffuse_color, *power),
            ),
        }) || r.outcome == (BounceOutcome::Bounce {
            kind: BounceType::SPECULAR,
            power: survival_power(
                *power,
                *reflect_color,
                reflect_probability_spec(*reflect_color, *power),
            ),
        }),
{
    let draw = draw_unit();
    photon_bounce_step(diffuse_color, reflect_color, power, depth, prior, draw)
}

/// A light chosen with probability proportional to intensity, using a
/// fresh draw.  Whatever the draw, the chosen light has positive
/// intensity.
pub fn random_light(lights: &Vec<Light>) -> (r: usize)
    requires
        lights@.len() > 0,
        forall|i: int| 0 <= i < lights@.len() ==> 0 <= (#[trigger] lights@[i]).intensity,
        0 < cum_intensity(lights@, lights@.len() as int) <= i64::MAX,
    ensures
        r < lights@.len(),
        lights@[r as int].intensity > 0,
{
    let total = total_intensity(lights);
    let bits: u64 = rand::random::<u64>();
    let draw: i64 = (bits % (total as u64)) as i64;
    proof {
        assert(bits % (total as u64) < total as u64);
    }
    pick_light(lights, draw)
}

/// The summed intensity of a light list.
pub fn total_intensity(lights: &Vec<Light>) -> (r: i64)
    requires
        forall|i: int| 0 <= i < lights@.len() ==> 0 <= (#[trigger] lights@[i]).intensity,
        cum_intensity(lights@, lights@.len() as int) <= i64::MAX,
    ensures
        r == cum_intensity(lights@, lights@.len() as int),
        r >= 0,
{
    let n = lights.len();
    let mut acc: i64 = 0;
    let mut i: usize = 0;
    while i < n
        invariant
            0 <= i <= n,
            n == lights@.len(),
            forall|k: int| 0 <= k < n ==> 0 <= (#[trigger] lights@[k]).intensity,
            cum_intensity(lights@, n as int) <= i64::MAX,
            acc == cum_intensity(lights@, i as int),
            acc >= 0,
        decreases n - i,
    {
        proof {
            lemma_cum_monotone(lights@, i + 1, n as int);
        }
        acc = acc + vstd::std_specs::vec::vec_index(lights, i).intensity;
        i = i + 1;
    }
    acc
}

/// The squared outgoing index, in fixed point, has a positive floor.
proof fn lemma_nt2_lower(nt: int)
    requires
        16384 <= nt <= 1048576,
    ensures
        4096 <= tdiv(nt * nt, FX_ONE as int),
{
    assert(nt * nt >= 0x1000_0000) by (nonlinear_arith)
        requires
            nt >= 16384,
    ;
    assert(nt * nt / (FX_ONE as int) >= 0x1000_0000int / (FX_ONE as int)) by (nonlinear_arith)
        requires
            nt * nt >= 0x1000_0000,
    ;
    assert(0x1000_0000int / (FX_ONE as int) == 4096);
}

/// The Snell quotient is bounded: a bounded numerator scaled by one and
/// divided by at least `4096` stays far from the integer limits.
proof fn lemma_refract_quotient_bound(a: int, d: int)
    requires
        -0x4_0000_0000 <= a <= 0x4_0000_0000,
        4096 <= d,
    ensures
        -0x40_0000_0000 <= tdiv(a * FX_ONE, d) <= 0x40_0000_0000,
{
    if a >= 0 {
        assert(0 <= a * FX_ONE <= 0x4_0000_0000 * FX_ONE) by (nonlinear_arith)
            requires
                0 <= a <= 0x4_0000_0000,
        ;
        assert(a * FX_ONE / d <= a * FX_ONE / 4096) by (nonlinear_arith)
            requires
                0 <= a * FX_ONE,
                4096 <= d,
        ;
        assert(a * FX_ONE / 4096 <= (0x4_0000_0000 * FX_ONE) / 4096) by (nonlinear_arith)
            requires
                0 <= a * FX_ONE <= 0x4_0000_0000 * FX_ONE,
        ;
        assert((0x4_0000_0000 * (FX_ONE as int)) / 4096 == 0x40_0000_0000);
        assert(a * FX_ONE / d >= 0) by (nonlinear_arith)
            requires
                0 <= a * FX_ONE,
                0 < d,
        ;
    } else {
        let m = -a;
        assert(0 <= m * FX_ONE <= 0x4_0000_0000 * FX_ONE) by (nonlinear_arith)
            requires
                0 <= m <= 0x4_0000_0000,
        ;
        assert(m * FX_ONE / d <= m * FX_ONE / 4096) by (nonlinear_arith)
            requires
                0 <= m * FX_ONE,
                4096 <= d,
        ;
        assert(m * FX_ONE / 4096 <= (0x4_0000_0000 * FX_ONE) / 4096) by (nonlinear_arith)
            requires
                0 <= m * FX_ONE <= 0x4_0000_0000 * FX_ONE,
        ;
        assert((0x4_0000_0000 * (FX_ONE as int)) / 4096 == 0x40_0000_0000);
        assert(m * FX_ONE / d >= 0) by (nonlinear_arith)
            requires
                0 <= m * FX_ONE,
                0 < d,
        ;
        assert(-(a * FX_ONE) == m * FX_ONE) by (nonlinear_arith)
            requires
                m == -a,
        ;
    }
}

/// A scaled quotient with a small numerator fits in 64 bits.
proof fn lemma_fx_div_fits(a: int, d: int)
    requires
        -0x4000_0000_0000 <= a <= 0x4000_0000_0000,
        16384 <= d,
    ensures
        -0x1_0000_0000_0000 <= tdiv(a * FX_ONE, d) <= 0x1_0000_0000_0000,
{
    if a >= 0 {
        assert(0 <= a * FX_ONE) by (nonlinear_arith)
            requires
                0 <= a,
        ;
        assert(a * FX_ONE / d <= a * FX_ONE / 16384) by (nonlinear_arith)
            requires
                0 <= a * FX_ONE,
                16384 <= d,
        ;
        assert(a * FX_ONE / 16384 <= a * 4) by (nonlinear_arith)
            requires
                0 <= a,
        ;
        assert(a * FX_ONE / d >= 0) by (nonlinear_arith)
            requires
                0 <= a * FX_ONE,
                0 < d,
        ;
        assert(a * 4 <= 0x1_0000_0000_0000) by (nonlinear_arith)
            requires
                a <= 0x4000_0000_0000,
        ;
    } else {
        let m = -a;
        assert(0 <= m * FX_ONE) by (nonlinear_arith)
            requires
                0 <= m,
        ;
        assert(m * FX_ONE / d <= m * FX_ONE / 16384) by (nonlinear_arith)
            requires
                0 <= m * FX_ONE,
                16384 <= d,
        ;
        assert(m * FX_ONE / 16384 <= m * 4) by (nonlinear_arith)
            requires
                0 <= m,
        ;
        assert(m * FX_ONE / d >= 0) by (nonlinear_arith)
            requires
                0 <= m * FX_ONE,
                0 < d,
        ;
        assert(m * 4 <= 0x1_0000_0000_0000) by (nonlinear_arith)
            requires
                m <= 0x4000_0000_0000,
        ;
        assert(-(a * FX_ONE) == m * FX_ONE) by (nonlinear_arith)
            requires
                m == -a,
        ;
    }
}

/// A ratio with numerator no larger in magnitude than the denominator is
/// between minus one and one.
proof fn lemma_abs_ratio_at_most_one(num: int, den: int)
    requires
        -den <= num <= den,
        0 < den,
    ensures
        -FX_ONE <= tdiv(num * FX_ONE, den) <= FX_ONE,
{
    if num >= 0 {
        lemma_ratio_at_most_one(num, den);
    } else {
        lemma_ratio_at_most_one(-num, den);
        assert(-(num * FX_ONE) == (-num) * FX_ONE) by (nonlinear_arith);
    }
}

/// The fixed-point square of a fraction in `[-1, 1]` lies in `[0, 1]`.
proof fn lemma_unit_square_range(a: int)
    requires
        -FX_ONE <= a <= FX_ONE,
    ensures
        0 <= tdiv(a * a, FX_ONE as int) <= FX_ONE,
{
    assert(0 <= a * a <= FX_ONE * FX_ONE) by (nonlinear_arith)
        requires
            -FX_ONE <= a <= FX_ONE,
    ;
    assert(a * a / (FX_ONE as int) <= FX_ONE * FX_ONE / (FX_ONE as int)) by (nonlinear_arith)
        requires
            a * a <= FX_ONE * FX_ONE,
    ;
    assert(FX_ONE * FX_ONE / (FX_ONE as int) == FX_ONE) by (nonlinear_arith);
    assert(a * a / (FX_ONE as int) >= 0) by (nonlinear_arith)
        requires
            a * a >= 0,
    ;
}

/// The fixed-point product of two fractions in `[0, 1]` lies in `[0, 1]`.
proof fn lemma_unit_mul_range(x: int, y: int)
    requires
        0 <= x <= FX_ONE,
        0 <= y <= FX_ONE,
    ensures
        0 <= tdiv(x * y, FX_ONE as int) <= FX_ONE,
{
    assert(0 <= x * y <= FX_ONE * FX_ONE) by (nonlinear_arith)
        requires
            0 <= x <= FX_ONE,
            0 <= y <= FX_ONE,
    ;
    assert(x * y / (FX_ONE as int) <= FX_ONE * FX_ONE / (FX_ONE as int)) by (nonlinear_arith)
        requires
            x * y <= FX_ONE * FX_ONE,
    ;
    assert(FX_ONE * FX_ONE / (FX_ONE as int) == FX_ONE) by (nonlinear_arith);
    assert(x * y / (FX_ONE as int) >= 0) by (nonlinear_arith)
        requires
            x * y >= 0,
    ;
}

/// Russian roulette is unbiased up to fixed-point rounding: a branch kept
/// with probability `p / FX_ONE` and rescaled by `FX_ONE / p` carries, in
/// expectation, the reflectance-filtered incoming power.  Exactly: with
/// `q` the filtered power and `out` the rescaled survivor,
/// `p * out <= q * FX_ONE < p * (out + 1)`.
pub proof fn lemma_roulette_unbiased(c: int, k: int, p: int)
    requires
        0 <= c,
        0 <= k,
        0 < p <= FX_ONE,
    ensures
        ({
            let q = tdiv(c * k, FX_ONE as int);
            let out = tdiv(q * FX_ONE, p);
            p * out <= q * FX_ONE < p * (out + 1)
        }),
{
    let q = tdiv(c * k, FX_ONE as int);
    assert(c * k >= 0) by (nonlinear_arith)
        requires
            c >= 0,
            k >= 0,
    ;
    assert(q >= 0) by (nonlinear_arith)
        requires
            q == c * k / (FX_ONE as int),
            c * k >= 0,
    ;
    let scaled = q * FX_ONE;
    assert(scaled >= 0) by (nonlinear_arith)
        requires
            scaled == q * FX_ONE,
            q >= 0,
    ;
    let out = tdiv(scaled, p);
    assert(out == scaled / p);
    vstd::arithmetic::div_mod::lemma_fundamental_div_mod(scaled, p);
    vstd::arithmetic::div_mod::lemma_remainder_lower(scaled, p);
    vstd::arithmetic::div_mod::lemma_remainder_upper(scaled, p);
    assert(p * out <= scaled < p * (out + 1)) by (nonlinear_arith)
        requires
            scaled == p * (scaled / p) + scaled % p,
            0 <= scaled % p < p,
            out == scaled / p,
    ;
}

} // verus!
