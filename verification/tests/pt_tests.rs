//! The parallel-tempering pass, round-trip tagging and the Houdayer
//! cluster move.
use rand::SeedableRng;
use rand_xoshiro::Xoshiro256PlusPlus;
use tamc::icm::houdayer_cluster_move;
use tamc::instance::BqmIsingInstance;
use tamc::pt::{pt_swap_pass, record_diffusion, update_round_trip_tags, DirTag, PTState};
use tamc::spins::IsingState;

const ONE: i64 = 65536;

fn two_spin_instance() -> BqmIsingInstance {
    let entries = vec![(0u32, 1u32, ONE)];
    BqmIsingInstance::from_entries(2, &entries, false).unwrap()
}

fn cached_state(inst: &BqmIsingInstance, spins: &[i8]) -> IsingState {
    let mut st = IsingState { arr: spins.to_vec(), energy: 0, energy_init: false };
    let e = inst.energy_ref(&st);
    st.energy = e;
    st.energy_init = true;
    st
}

#[test]
fn pt_swap_with_equal_betas_is_deterministic() {
    // M = 1, T = 2, identical betas: the swap exponent is zero, so
    // the swap is always accepted, whatever the seed.
    let inst = two_spin_instance();
    let s0 = cached_state(&inst, &[1, 1]);
    let s1 = cached_state(&inst, &[1, -1]);
    let e0 = s0.energy;
    let e1 = s1.energy;
    let betas = vec![10 * ONE, 10 * ONE];
    for seed in [1u64, 2, 1234, 99999] {
        let mut rng = Xoshiro256PlusPlus::seed_from_u64(seed);
        let mut chain = PTState::new(vec![
            cached_state(&inst, &[1, 1]),
            cached_state(&inst, &[1, -1]),
        ]);
        pt_swap_pass(&mut chain, &inst, &betas, &mut rng);
        // Accepted deterministically: the states (with their cached
        // energies) changed places and the acceptance count moved.
        assert_eq!(chain.states[0].energy, e1);
        assert_eq!(chain.states[1].energy, e0);
        assert_eq!(chain.states[0].arr, vec![1, -1]);
        assert_eq!(chain.states[1].arr, vec![1, 1]);
        assert_eq!(chain.num_acceptances[0], 1);
    }
}

#[test]
fn pt_swap_preserves_energy_multiset() {
    let inst = two_spin_instance();
    let betas = vec![ONE / 10, 10 * ONE];
    let mut rng = Xoshiro256PlusPlus::seed_from_u64(7);
    let mut chain = PTState::new(vec![
        cached_state(&inst, &[1, 1]),
        cached_state(&inst, &[-1, 1]),
    ]);
    let mut before: Vec<i64> = chain.states.iter().map(|s| s.energy).collect();
    pt_swap_pass(&mut chain, &inst, &betas, &mut rng);
    let mut after: Vec<i64> = chain.states.iter().map(|s| s.energy).collect();
    before.sort();
    after.sort();
    assert_eq!(before, after);
}

#[test]
fn round_trip_counter_increments_only_on_opposite_tags() {
    let inst = two_spin_instance();
    let mut chain = PTState::new(vec![
        cached_state(&inst, &[1, 1]),
        cached_state(&inst, &[1, -1]),
        cached_state(&inst, &[-1, 1]),
    ]);
    // Fresh tags are unseen: retagging counts nothing.
    update_round_trip_tags(&mut chain);
    assert_eq!(chain.round_trips, 0);
    assert_eq!(chain.dir_tags[0], DirTag::TowardMax);
    assert_eq!(chain.dir_tags[2], DirTag::TowardMin);
    // A toward-max tag reaching the top counts one traversal.
    chain.dir_tags[2] = DirTag::TowardMax;
    update_round_trip_tags(&mut chain);
    assert_eq!(chain.round_trips, 1);
    // A toward-min tag reaching the bottom counts another.
    chain.dir_tags[0] = DirTag::TowardMin;
    update_round_trip_tags(&mut chain);
    assert_eq!(chain.round_trips, 2);
    // Same-direction tags at the endpoints count nothing.
    update_round_trip_tags(&mut chain);
    assert_eq!(chain.round_trips, 2);
}

#[test]
fn diffusion_histogram_counts_tags_by_direction() {
    let inst = two_spin_instance();
    let mut chain = PTState::new(vec![
        cached_state(&inst, &[1, 1]),
        cached_state(&inst, &[1, -1]),
        cached_state(&inst, &[-1, 1]),
    ]);
    chain.dir_tags[0] = DirTag::TowardMax;
    chain.dir_tags[1] = DirTag::Unseen;
    chain.dir_tags[2] = DirTag::TowardMin;
    record_diffusion(&mut chain);
    record_diffusion(&mut chain);
    assert_eq!(chain.diffusion_hist[0], (2, 0));
    assert_eq!(chain.diffusion_hist[1], (0, 0));
    assert_eq!(chain.diffusion_hist[2], (0, 2));
}

#[test]
fn reset_tags_clears_counters() {
    let inst = two_spin_instance();
    let mut chain = PTState::new(vec![
        cached_state(&inst, &[1, 1]),
        cached_state(&inst, &[1, -1]),
    ]);
    update_round_trip_tags(&mut chain);
    chain.reset_tags();
    assert_eq!(chain.round_trips, 0);
    assert!(chain.dir_tags.iter().all(|t| *t == DirTag::Unseen));
    assert!(chain.num_acceptances.iter().all(|a| *a == 0));
    assert!(chain.diffusion_hist.iter().all(|h| *h == (0, 0)));
}

#[test]
fn houdayer_is_a_no_op_on_equal_replicas() {
    let entries = vec![(0u32, 1u32, -ONE), (1, 2, -ONE), (2, 3, -ONE)];
    let inst = BqmIsingInstance::from_entries(4, &entries, false).unwrap();
    let g = inst.to_csr_graph();
    let spins: [i8; 4] = [1, -1, 1, -1];
    let mut r1 = cached_state(&inst, &spins);
    let mut r2 = cached_state(&inst, &spins);
    let mut rng = Xoshiro256PlusPlus::seed_from_u64(5);
    let mv = houdayer_cluster_move(&mut r1, &mut r2, &g, &mut rng);
    assert!(mv.is_none());
    assert_eq!(r1.arr, spins.to_vec());
    assert_eq!(r2.arr, spins.to_vec());
    assert!(r1.energy_init);
    assert!(r2.energy_init);
}

#[test]
fn houdayer_swaps_a_disagreeing_cluster() {
    // A path of four sites; the replicas disagree on sites 1 and 2,
    // which are adjacent: the cluster is exactly {1, 2}.
    let entries = vec![(0u32, 1u32, -ONE), (1, 2, -ONE), (2, 3, -ONE)];
    let inst = BqmIsingInstance::from_entries(4, &entries, false).unwrap();
    let g = inst.to_csr_graph();
    let a: [i8; 4] = [1, 1, -1, -1];
    let b: [i8; 4] = [1, -1, 1, -1];
    let mut r1 = cached_state(&inst, &a);
    let mut r2 = cached_state(&inst, &b);
    let pair_energy_before = r1.energy + r2.energy;
    let mut rng = Xoshiro256PlusPlus::seed_from_u64(11);
    let mv = houdayer_cluster_move(&mut r1, &mut r2, &g, &mut rng);
    let cluster = mv.expect("disagreeing sites exist");
    // Swapped sites keep disagreeing (the overlap stays -1) and the
    // untouched sites keep their spins.
    for i in 0..4usize {
        if cluster.get_bit(i) {
            assert!(a[i] != b[i]);
            assert_eq!(r1.arr[i], b[i]);
            assert_eq!(r2.arr[i], a[i]);
            assert!(r1.arr[i] != r2.arr[i]);
        } else {
            assert_eq!(r1.arr[i], a[i]);
            assert_eq!(r2.arr[i], b[i]);
        }
    }
    // Both caches were invalidated; the next energy call recomputes
    // the exact Hamiltonian of the swapped configurations.
    assert!(!r1.energy_init);
    assert!(!r2.energy_init);
    let e1 = inst.energy(&mut r1);
    let e2 = inst.energy(&mut r2);
    assert_eq!(e1, inst.energy_ref(&r1));
    assert_eq!(e2, inst.energy_ref(&r2));
    // The move is isoenergetic on the pair.
    assert_eq!(e1 + e2, pair_energy_before);
    // The cluster is the full disagreement component {1, 2}.
    assert!(cluster.get_bit(1) && cluster.get_bit(2));
    assert!(!cluster.get_bit(0) && !cluster.get_bit(3));
}
