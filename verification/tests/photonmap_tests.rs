use rust_raytracer::material::Color;
use rust_raytracer::photonmap::{Flag, Heap, PhotonMap};
use rust_raytracer::vector3::Vector3;
use rust_raytracer::FX_ONE;

fn up() -> Vector3 {
    Vector3::new(0, FX_ONE, 0)
}

fn unit_power() -> Color {
    Color::new(FX_ONE, FX_ONE, FX_ONE)
}

// Photons in the plane y = 0 pass the coplanarity filter for queries in
// that plane with normal (0, 1, 0).
fn planar_map(positions: &[(i64, i64)]) -> PhotonMap {
    let mut map = PhotonMap::new();
    for &(x, z) in positions {
        map.store(&Vector3::new(x, 0, z), &up(), &unit_power());
    }
    map
}

fn lcg(state: &mut u64) -> u64 {
    *state = state.wrapping_mul(6364136223846793005).wrapping_add(1442695040888963407);
    *state >> 33
}

#[test]
fn store_appends_and_balance_keeps_count() {
    let mut map = planar_map(&[(0, 0), (FX_ONE, 0), (0, FX_ONE), (-FX_ONE, FX_ONE)]);
    assert_eq!(map.stored_photons(), 4);
    assert!(!map.balanced());
    map.init_balance();
    assert!(map.balanced());
    assert_eq!(map.stored_photons(), 4);
}

#[test]
fn balance_preserves_position_multiset() {
    let coords: Vec<(i64, i64)> = (0..97).map(|i| ((i * 37) % 100 - 50, (i * 61) % 90 - 45)).collect();
    let scaled: Vec<(i64, i64)> =
        coords.iter().map(|&(x, z)| (x * FX_ONE, z * FX_ONE)).collect();
    let mut map = planar_map(&scaled);
    map.init_balance();
    let mut before: Vec<(i64, i64)> = scaled.clone();
    let mut after: Vec<(i64, i64)> = (0..map.stored_photons())
        .map(|i| {
            let p = map.photon(i);
            (p.position.x, p.position.z)
        })
        .collect();
    before.sort();
    after.sort();
    assert_eq!(before, after);
}

// The array holds a median-split tree: the middle of every range is
// tagged with a split axis, everything left of it is at or below its
// coordinate on that axis, everything right at or above.
fn check_tree(map: &PhotonMap, begin: usize, end: usize) {
    if end - begin == 0 {
        return;
    }
    if end - begin == 1 {
        assert_eq!(map.photon(begin).plane, Flag::Leaf);
        return;
    }
    let median = begin + (end - begin) / 2;
    let axis = map.photon(median).plane;
    assert_ne!(axis, Flag::Leaf);
    let split = map.split_value(median, axis);
    for i in begin..median {
        assert!(map.split_value(i, axis) <= split);
    }
    for i in median + 1..end {
        assert!(map.split_value(i, axis) >= split);
    }
    check_tree(map, begin, median);
    check_tree(map, median + 1, end);
}

#[test]
fn balance_builds_median_split_tree() {
    let mut state: u64 = 99;
    let mut positions: Vec<(i64, i64)> = Vec::new();
    for _ in 0..231 {
        let x = (lcg(&mut state) % 2000) as i64 - 1000;
        let z = (lcg(&mut state) % 2000) as i64 - 1000;
        positions.push((x * 1000, z * 1000));
    }
    let mut map = planar_map(&positions);
    map.init_balance();
    let n = map.stored_photons();
    check_tree(&map, 0, n);
}

#[test]
fn balance_splits_along_the_axis_of_greatest_variance() {
    // all positional spread lies along x
    let mut map = PhotonMap::new();
    for i in 0..9i64 {
        map.store(&Vector3::new(i * FX_ONE, 0, 0), &up(), &unit_power());
    }
    map.init_balance();
    let n = map.stored_photons();
    let median = n / 2;
    assert_eq!(map.photon(median).plane, Flag::XAxis);
}

#[test]
fn variance_ties_prefer_the_last_axis() {
    // identical positions: every variance is zero, z wins the tie
    let mut map = PhotonMap::new();
    for _ in 0..5 {
        map.store(&Vector3::new(FX_ONE, FX_ONE, FX_ONE), &up(), &unit_power());
    }
    map.init_balance();
    let median = map.stored_photons() / 2;
    assert_eq!(map.photon(median).plane, Flag::ZAxis);
}

#[test]
fn full_radius_query_returns_every_stored_photon() {
    // All photons pass the filter and fit in the heap: the query must
    // retain each stored photon exactly once.
    let mut positions: Vec<(i64, i64)> = Vec::new();
    for i in 0..12 {
        for j in 0..12 {
            positions.push(((i - 6) * FX_ONE, (j - 6) * FX_ONE));
        }
    }
    let mut map = planar_map(&positions);
    map.init_balance();
    let mut heap = Heap::new();
    let _ = map.irradiance_estimate(&mut heap, &Vector3::new(0, 0, 0), &up());
    assert_eq!(heap.size(), 144);
    let mut seen = vec![false; 144];
    for i in 0..heap.size() {
        let nb = heap.item(i);
        assert!(!seen[nb.index], "photon retained twice");
        seen[nb.index] = true;
    }
    assert!(seen.iter().all(|&s| s));
}

#[test]
fn bounded_query_matches_brute_force() {
    // 600 photons, capacity 200: the retained set must be the true 200
    // nearest by squared distance (ties may fall either way).
    let mut state: u64 = 7;
    let mut positions: Vec<(i64, i64)> = Vec::new();
    for _ in 0..600 {
        let x = (lcg(&mut state) % 131072) as i64 - 65536;
        let z = (lcg(&mut state) % 131072) as i64 - 65536;
        positions.push((x * 50, z * 50));
    }
    let mut map = planar_map(&positions);
    map.init_balance();
    let mut heap = Heap::new();
    let query = Vector3::new(12345, 0, -6789);
    let _ = map.irradiance_estimate(&mut heap, &query, &up());
    assert_eq!(heap.size(), 200);
    let bound = heap.max_dist_sq();
    let dist = |i: usize| -> u64 {
        let p = map.photon(i).position;
        let dx = (query.x - p.x) as i128;
        let dz = (query.z - p.z) as i128;
        (dx * dx + dz * dz) as u64
    };
    let mut retained = vec![false; 600];
    for i in 0..heap.size() {
        let nb = heap.item(i);
        assert_eq!(nb.distance_squared, dist(nb.index));
        assert!(nb.distance_squared <= bound);
        retained[nb.index] = true;
    }
    for i in 0..600 {
        if !retained[i] {
            assert!(dist(i) >= bound, "a nearer photon was left out");
        }
    }
}

#[test]
fn coplanarity_filter_rejects_off_plane_photons() {
    let mut map = planar_map(&[(0, FX_ONE), (FX_ONE, 0), (-FX_ONE, -FX_ONE)]);
    // straight above the query point: displacement parallel to the normal
    map.store(&Vector3::new(0, 2 * FX_ONE, 0), &up(), &unit_power());
    map.init_balance();
    let mut heap = Heap::new();
    let _ = map.irradiance_estimate(&mut heap, &Vector3::new(0, 0, 0), &up());
    assert_eq!(heap.size(), 3);
    for i in 0..heap.size() {
        assert_ne!(map.photon(heap.item(i).index).position.y, 2 * FX_ONE);
    }
}

#[test]
fn empty_map_estimates_black() {
    let mut map = PhotonMap::new();
    map.init_balance();
    let mut heap = Heap::new();
    let c = map.irradiance_estimate(&mut heap, &Vector3::new(0, 0, 0), &up());
    assert_eq!(c, Color::black());
    assert_eq!(heap.size(), 0);
}

#[test]
fn irradiance_estimate_exact_single_photon() {
    let mut map = PhotonMap::new();
    map.store(&Vector3::new(FX_ONE, 0, 0), &up(), &unit_power());
    map.init_balance();
    let mut heap = Heap::new();
    let c = map.irradiance_estimate(&mut heap, &Vector3::new(0, 0, 0), &up());
    // one photon at squared distance FX_ONE^2, full cosine:
    // sum = FX_ONE, disc area = pi * 1, result = FX_ONE^2 / PI_FX
    let expected = (FX_ONE as i128 * FX_ONE as i128 / 205887) as i64;
    assert_eq!(c.r, expected);
    assert_eq!(c.g, expected);
    assert_eq!(c.b, expected);
}

// A surface lit only through the photon map: with a fixed seed sequence
// and a fixed total emitted power, the spread of the radiance estimates
// across query points shrinks as the photon count grows from a sparse map
// to one that covers the query area.
#[test]
fn estimate_spread_shrinks_as_the_map_densifies() {
    let spread_for = |count: u64| -> f64 {
        let mut state: u64 = 12345;
        let mut map = PhotonMap::new();
        let total_power: i64 = 3200 * FX_ONE;
        let per_photon = Color::new(
            total_power / count as i64,
            total_power / count as i64,
            total_power / count as i64,
        );
        for _ in 0..count {
            let x = (lcg(&mut state) % (20 * FX_ONE as u64)) as i64 - 10 * FX_ONE;
            let z = (lcg(&mut state) % (20 * FX_ONE as u64)) as i64 - 10 * FX_ONE;
            map.store(&Vector3::new(x, 0, z), &up(), &per_photon);
        }
        map.init_balance();
        let mut heap = Heap::new();
        let mut values: Vec<f64> = Vec::new();
        for qx in -1..=1i64 {
            for qz in -1..=1i64 {
                let q = Vector3::new(qx * FX_ONE, 0, qz * FX_ONE);
                let c = map.irradiance_estimate(&mut heap, &q, &up());
                values.push(c.r as f64);
            }
        }
        let mean = values.iter().sum::<f64>() / values.len() as f64;
        let var = values.iter().map(|v| (v - mean) * (v - mean)).sum::<f64>()
            / values.len() as f64;
        if mean > 0.0 {
            var.sqrt() / mean
        } else {
            f64::INFINITY
        }
    };
    let sparse = spread_for(50);
    let medium = spread_for(400);
    let dense = spread_for(3200);
    assert!(medium <= sparse, "spread grew from {} to {}", sparse, medium);
    assert!(dense < sparse, "spread did not shrink: {} vs {}", sparse, dense);
}

#[test]
fn scale_photon_power_rescales_every_channel() {
    let mut map = PhotonMap::new();
    map.store(&Vector3::new(0, 0, 0), &up(), &Color::new(FX_ONE, FX_ONE / 2, 100));
    map.scale_photon_power(FX_ONE / 4);
    let p = map.photon(0);
    assert_eq!(p.power.r, FX_ONE / 4);
    assert_eq!(p.power.g, FX_ONE / 8);
    assert_eq!(p.power.b, 25);
}
