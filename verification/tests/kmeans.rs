use rinha_fraud::kmeans::{count_assignments, draw_distinct, nearest_centroid, Rng};

fn dist_key(a: &[f32], b: &[f32]) -> u32 {
    let mut d = 0.0_f32;
    for i in 0..a.len() {
        let diff = a[i] - b[i];
        d += diff * diff;
    }
    d.to_bits()
}

#[test]
fn rng_is_deterministic() {
    let mut a = Rng::new(42);
    let mut b = Rng::new(42);
    for _ in 0..100 {
        assert_eq!(a.next_u32(), b.next_u32());
    }
}

#[test]
fn rng_matches_known_mulberry32_outputs() {
    let mut r = Rng::new(42);
    let expected = [2581720956_u32, 1925393290, 3661312704, 2876485805, 750819978];
    for e in expected {
        assert_eq!(r.next_u32(), e);
    }
}

#[test]
fn rng_seed_uses_low_32_bits() {
    let mut a = Rng::new(42);
    let mut b = Rng::new((7_u64 << 32) | 42);
    for _ in 0..10 {
        assert_eq!(a.next_u32(), b.next_u32());
    }
}

#[test]
fn next_range_scales_into_range() {
    let mut r = Rng::new(1);
    assert_eq!(r.next_range(20), 12);
    assert_eq!(r.next_range(20), 0);
    assert_eq!(r.next_range(20), 10);
    let mut z = Rng::new(5);
    for _ in 0..50 {
        assert_eq!(z.next_range(0), 0);
        assert!(z.next_range(7) < 7);
    }
}

#[test]
fn draw_distinct_gives_distinct_indices_in_range() {
    let mut r = Rng::new(42);
    let picked = draw_distinct(&mut r, 50, 60).unwrap();
    assert_eq!(picked.len(), 50);
    for i in 0..picked.len() {
        assert!(picked[i] < 60);
        for j in 0..i {
            assert_ne!(picked[i], picked[j]);
        }
    }
}

#[test]
fn draw_distinct_follows_the_draw_stream() {
    // The first draw is always taken; later draws skip repeats.
    let mut a = Rng::new(9);
    let first = a.next_range(1000);
    let mut b = Rng::new(9);
    let picked = draw_distinct(&mut b, 1, 1000).unwrap();
    assert_eq!(picked, vec![first]);
    // Both generators are now in the same state.
    assert_eq!(a.next_u32(), b.next_u32());
}

#[test]
fn draw_distinct_all_of_a_small_range() {
    let mut r = Rng::new(3);
    let mut picked = draw_distinct(&mut r, 4, 4).unwrap();
    picked.sort();
    assert_eq!(picked, vec![0, 1, 2, 3]);
}

#[test]
fn nearest_centroid_picks_first_smallest() {
    assert_eq!(nearest_centroid(&[5, 3, 3, 9]), 1);
    assert_eq!(nearest_centroid(&[0x7f80_0000, 0x7f80_0000]), 0);
    assert_eq!(nearest_centroid(&[0x7fc0_0000, 4]), 1);
    assert_eq!(nearest_centroid(&[]), 0);
}

#[test]
fn count_assignments_counts_each_cluster() {
    assert_eq!(count_assignments(&[0, 2, 2, 1, 2], 4), vec![1, 1, 3, 0]);
    assert_eq!(count_assignments(&[], 2), vec![0, 0]);
}

#[test]
fn assign_all_groups_close_points_together() {
    let dim = 2;
    let centroids = vec![0.0_f32, 0.0, 10.0, 10.0];
    let data = vec![
        0.1, 0.1, // near centroid 0
        10.2, 10.2, // near centroid 1
        0.3, 0.0, // near centroid 0
    ];
    let mut asg = Vec::new();
    for i in 0..3 {
        let point = &data[i * dim..(i + 1) * dim];
        let keys: Vec<u32> =
            (0..2).map(|k| dist_key(point, &centroids[k * dim..(k + 1) * dim])).collect();
        asg.push(nearest_centroid(&keys));
    }
    let counts = count_assignments(&asg, 2);
    assert_eq!(asg.to_vec(), vec![0, 1, 0]);
    assert_eq!(counts.to_vec(), vec![2, 1]);
}
