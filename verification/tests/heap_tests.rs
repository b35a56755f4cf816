use rust_raytracer::photonmap::{Heap, DEFAULT_MAX_DIST_SQ, N_PHOTON_RADIANCE};

fn check_invariant(h: &Heap) {
    let n = h.size();
    assert!(n <= h.capacity());
    if n > 0 {
        let root = h.item(0);
        for i in 0..n {
            assert!(h.item(i).distance_squared <= root.distance_squared);
        }
        assert_eq!(h.max_dist_sq(), root.distance_squared);
    }
}

#[test]
fn heap_starts_empty_with_default_radius() {
    let h = Heap::new();
    assert_eq!(h.size(), 0);
    assert_eq!(h.capacity(), N_PHOTON_RADIANCE);
    assert_eq!(h.max_dist_sq(), DEFAULT_MAX_DIST_SQ);
}

#[test]
fn heap_reset_clears_and_restores_radius() {
    let mut h = Heap::with_capacity(4);
    h.add_photon(0, 10);
    h.add_photon(1, 20);
    assert_eq!(h.size(), 2);
    h.reset();
    assert_eq!(h.size(), 0);
    assert_eq!(h.max_dist_sq(), DEFAULT_MAX_DIST_SQ);
}

#[test]
fn heap_root_is_max_while_filling() {
    let mut h = Heap::with_capacity(8);
    let values = [5u64, 3, 9, 1, 7, 9, 2, 6];
    for (i, &v) in values.iter().enumerate() {
        h.add_photon(i, v);
        check_invariant(&h);
    }
    assert_eq!(h.size(), 8);
    assert_eq!(h.max_dist_sq(), 9);
}

#[test]
fn heap_eviction_retains_smallest() {
    // Mirror the search's admission rule: once full, only closer
    // candidates are admitted, each replacing the current farthest.
    let mut h = Heap::with_capacity(4);
    let mut state: u64 = 0x2545F4914F6CDD1D;
    let mut values: Vec<u64> = Vec::new();
    for i in 0..64 {
        state = state.wrapping_mul(6364136223846793005).wrapping_add(1442695040888963407);
        let v = state >> 40;
        values.push(v);
        if h.size() < h.capacity() {
            h.add_photon(i, v);
        } else if v < h.max_dist_sq() {
            h.add_photon(i, v);
        }
        check_invariant(&h);
    }
    let mut sorted = values.clone();
    sorted.sort();
    // the retained distances are the four smallest seen
    let mut retained: Vec<u64> = (0..h.size()).map(|i| h.item(i).distance_squared).collect();
    retained.sort();
    assert_eq!(retained, sorted[..4].to_vec());
}

#[test]
fn heap_size_never_exceeds_capacity() {
    let mut h = Heap::with_capacity(3);
    for i in 0..10 {
        let v = 1000 - (i as u64) * 10;
        if h.size() < h.capacity() || v < h.max_dist_sq() {
            h.add_photon(i, v);
        }
        check_invariant(&h);
        assert!(h.size() <= 3);
    }
    assert_eq!(h.size(), 3);
    assert_eq!(h.max_dist_sq(), 930);
}
