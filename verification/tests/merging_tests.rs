use data_assimilation::merging::{
    kept_particles, kept_total, merge_sources, repeated_indices, shuffled_merge_order,
};
use rand::SeedableRng;
use rand_xoshiro::Xoshiro256StarStar;

#[test]
fn repeated_indices_in_runs() {
    assert_eq!(repeated_indices(3, 2), vec![0, 0, 1, 1, 2, 2]);
    assert_eq!(repeated_indices(2, 3), vec![0, 0, 0, 1, 1, 1]);
    assert_eq!(repeated_indices(0, 3), Vec::<usize>::new());
    assert_eq!(repeated_indices(4, 0), Vec::<usize>::new());
}

#[test]
fn merge_sources_read_a_sliding_window() {
    let order = vec![5, 4, 3, 2, 1, 0];
    let s = merge_sources(&order, 3, 2);
    assert_eq!(s, vec![vec![5, 4], vec![4, 3], vec![3, 2]]);
    let s = merge_sources(&vec![0, 1, 2], 1, 3);
    assert_eq!(s, vec![vec![0, 1, 2]]);
    let s = merge_sources(&vec![], 2, 0);
    assert_eq!(s, vec![Vec::<usize>::new(), Vec::new()]);
}

#[test]
fn shuffled_order_keeps_each_particle_m_times() {
    let mut rng = Xoshiro256StarStar::seed_from_u64(2039);
    let (n, m) = (50, 3);
    let order = shuffled_merge_order(n, m, &mut rng);
    assert_eq!(order.len(), n * m);
    for p in 0..n {
        assert_eq!(order.iter().filter(|&&x| x == p).count(), m);
    }
    assert!(order.iter().all(|&x| x < n));
    // the shuffle really moves entries
    assert_ne!(order, repeated_indices(n, m));
    let sources = merge_sources(&order, n, m);
    assert!(sources.iter().all(|row| row.len() == m && row.iter().all(|&x| x < n)));
}

#[test]
fn shuffled_order_follows_the_seed() {
    let mut a = Xoshiro256StarStar::seed_from_u64(801);
    let mut b = Xoshiro256StarStar::seed_from_u64(801);
    assert_eq!(shuffled_merge_order(20, 3, &mut a), shuffled_merge_order(20, 3, &mut b));
}

#[test]
fn kept_particles_replicate_in_order() {
    assert_eq!(kept_particles(3, &vec![0, 1, 0]), vec![1, 1, 1]);
    assert_eq!(kept_particles(2, &vec![1, 1]), vec![0, 0, 1, 1]);
    assert_eq!(kept_particles(4, &vec![0, 0, 0, 0]), Vec::<usize>::new());
    assert_eq!(kept_total(3, &vec![0, 1, 0]), Some(3));
    assert_eq!(kept_total(2, &vec![1, 1]), Some(4));
    assert_eq!(kept_total(0, &vec![]), Some(0));
}

#[test]
fn kept_total_detects_overflow() {
    assert_eq!(kept_total(2, &vec![usize::MAX]), None);
    assert_eq!(kept_total(1, &vec![usize::MAX, 1]), None);
    assert_eq!(kept_total(1, &vec![usize::MAX, 0]), Some(usize::MAX));
}
