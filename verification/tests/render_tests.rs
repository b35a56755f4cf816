use rust_raytracer::material::Color;
use rust_raytracer::photonmap::{Heap, PhotonMap};
use rust_raytracer::ppm::{average_color, PPM};
use rust_raytracer::scene::{compose_surface_color, direct_illumination, LightSample};
use rust_raytracer::vector3::Vector3;
use rust_raytracer::FX_ONE;

#[test]
fn pixel_buffer_writes_by_coordinate() {
    let name = String::from("out.ppm");
    let mut image = PPM::new(&name, 4, 3);
    assert_eq!(image.width(), 4);
    assert_eq!(image.height(), 3);
    assert_eq!(image.bytes().len(), 36);
    image.add_pixel(2, 1, Color::new(FX_ONE, FX_ONE / 2, 0));
    let location = 3 * (1 * 4 + 2);
    assert_eq!(image.bytes()[location], 255);
    assert_eq!(image.bytes()[location + 1], 127);
    assert_eq!(image.bytes()[location + 2], 0);
    // every other byte is still zero
    for (i, &b) in image.bytes().iter().enumerate() {
        if i < location || i >= location + 3 {
            assert_eq!(b, 0);
        }
    }
}

#[test]
fn channel_bytes_clamp_to_the_display_range() {
    let c = Color::new(-5 * FX_ONE, 2 * FX_ONE, FX_ONE / 2);
    assert_eq!(c.r_byte(), 0);
    assert_eq!(c.g_byte(), 255);
    assert_eq!(c.b_byte(), 127);
    assert_eq!(c.to_buffer(), [0, 255, 127]);
}

#[test]
fn sample_averages_are_exact_integer_means() {
    let samples = vec![Color::new(2, 4, 6), Color::new(4, 8, 10)];
    assert_eq!(average_color(&samples), Color::new(3, 6, 8));
    let one = vec![Color::new(7, 7, 7)];
    assert_eq!(average_color(&one), Color::new(7, 7, 7));
}

#[test]
fn capped_color_limits_channels_at_one() {
    let c = Color::new(3 * FX_ONE, FX_ONE, 17).capped();
    assert_eq!(c, Color::new(FX_ONE, FX_ONE, 17));
}

// A single diffuse plane at y = -1 with normal (0, 1, 0), one point light
// straight overhead, and photon maps with nothing in them: the pixel must
// match the closed-form Lambertian value exactly, and both indirect terms
// must be exactly zero.
#[test]
fn scenario_single_plane_overhead_light_matches_lambert() {
    let normal = Vector3::new(0, FX_ONE, 0);
    let diffuse = Color::new(FX_ONE / 2, FX_ONE / 4, FX_ONE / 8);
    let light_color = Color::new(FX_ONE, FX_ONE, FX_ONE);
    // the light sits straight above the hit point: full cosine
    let samples = vec![LightSample { color: light_color, dir: normal, occluded: false }];
    let view = Vector3::new(0, 0, -FX_ONE);
    let (direct, specular) = direct_illumination(&samples, &normal, &view, &diffuse, 50);
    // closed form: light * diffuse * cos(0) = diffuse; the mirrored light
    // direction is perpendicular to the view, so the highlight is zero
    assert_eq!(direct, diffuse);
    assert_eq!(specular, Color::black());

    let mut global = PhotonMap::new();
    let mut caustic = PhotonMap::new();
    global.init_balance();
    caustic.init_balance();
    let mut heap = Heap::new();
    let hit = Vector3::new(0, -FX_ONE, 0);
    let global_color = global.irradiance_estimate(&mut heap, &hit, &normal);
    heap.reset();
    let caustic_color = caustic.irradiance_estimate(&mut heap, &hit, &normal);
    assert_eq!(global_color, Color::black());
    assert_eq!(caustic_color, Color::black());

    let pixel = compose_surface_color(
        &direct,
        &specular,
        &Color::black(),
        &diffuse,
        &global_color,
        &caustic_color,
    );
    assert_eq!(pixel, diffuse);
}

// An occluded light contributes nothing.
#[test]
fn occluded_light_adds_no_direct_light() {
    let normal = Vector3::new(0, FX_ONE, 0);
    let diffuse = Color::new(FX_ONE / 2, FX_ONE / 2, FX_ONE / 2);
    let samples = vec![
        LightSample { color: Color::white(), dir: normal, occluded: true },
    ];
    let view = Vector3::new(0, 0, -FX_ONE);
    let (direct, specular) = direct_illumination(&samples, &normal, &view, &diffuse, 50);
    assert_eq!(direct, Color::black());
    assert_eq!(specular, Color::black());
}

// A light below the horizon contributes nothing either: the cosine clamps
// at zero.
#[test]
fn light_below_horizon_is_clamped() {
    let normal = Vector3::new(0, FX_ONE, 0);
    let below = Vector3::new(0, -FX_ONE, 0);
    let diffuse = Color::new(FX_ONE / 2, FX_ONE / 2, FX_ONE / 2);
    let samples = vec![LightSample { color: Color::white(), dir: below, occluded: false }];
    let view = Vector3::new(0, 0, -FX_ONE);
    let (direct, _) = direct_illumination(&samples, &normal, &view, &diffuse, 50);
    assert_eq!(direct, Color::black());
}

// Indirect light is filtered by the surface's diffuse color when composed.
#[test]
fn composition_filters_indirect_light() {
    let direct = Color::new(100, 200, 300);
    let specular = Color::new(10, 20, 30);
    let reflected = Color::new(1, 2, 3);
    let diffuse = Color::new(FX_ONE / 2, FX_ONE / 2, FX_ONE / 2);
    let global = Color::new(4000, 6000, 8000);
    let caustic = Color::new(1000, 1000, 1000);
    let out = compose_surface_color(&direct, &specular, &reflected, &diffuse, &global, &caustic);
    assert_eq!(out, Color::new(100 + 10 + 1 + 2500, 200 + 20 + 2 + 3500, 300 + 30 + 3 + 4500));
}
