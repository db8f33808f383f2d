//! End-to-end runs of the PT-ICM engine.
use tamc::instance::BqmIsingInstance;
use tamc::params::{BetaOptions, PtIcmParams};
use tamc::runner::{pt_icm_minimize, PtIcmRunner};

const ONE: i64 = 65536;

/// Entries of an L x L periodic square lattice with uniform coupling.
fn lattice_entries(l: u32, k: i64) -> Vec<(u32, u32, i64)> {
    let mut entries = Vec::new();
    for i in 0..l {
        for j in 0..l {
            let q0 = i * l + j;
            let q1 = ((i + 1) % l) * l + j;
            let q2 = i * l + (j + 1) % l;
            entries.push((q0, q1, k));
            entries.push((q0, q2, k));
        }
    }
    entries
}

fn make_ising_2d_instance(l: u32) -> BqmIsingInstance {
    let n = (l * l) as usize;
    BqmIsingInstance::from_entries(n, &lattice_entries(l, -ONE), false).unwrap()
}

#[test]
fn it_works() {
    assert_eq!(2 + 2, 4);
}

#[test]
fn test_ising_2d_pt() {
    let l = 16u32;
    let num_betas = 16u32;
    let num_sweeps = 200u32;

    let instance = make_ising_2d_instance(l);
    let mut pt_icm_params = PtIcmParams::default();
    pt_icm_params.num_sweeps = num_sweeps;
    pt_icm_params.beta = BetaOptions::new_geometric(6554, 655360, num_betas);
    let beta_arr = pt_icm_params.beta.get_beta_arr();
    let pt_results = pt_icm_minimize(&instance, &pt_icm_params).unwrap();
    for (e, t) in pt_results.gs_energies.iter().zip(pt_results.gs_time_steps.iter()) {
        println!("t={}, e = {}", t, (*e as f64) / 65536.0);
    }
    for (b, a) in beta_arr.iter().zip(pt_results.acceptance_counts.iter()) {
        let acc_p = (*a as f64) / ((2 * num_sweeps) as f64);
        println!("beta {} : acc_p = {}", (*b as f64) / 65536.0, acc_p);
    }
}

#[test]
fn ferromagnet_ground_state_is_found() {
    // 2D lattice, L = 4, J = -1, zero field: the ground state has all
    // spins aligned, at energy -2 L^2 = -32.
    let instance = make_ising_2d_instance(4);
    let mut params = PtIcmParams::default();
    params.num_sweeps = 200;
    params.beta = BetaOptions::new_geometric(6554, 655360, 8);
    params.num_replica_chains = 2;
    let results = pt_icm_minimize(&instance, &params).unwrap();
    let best = *results.gs_energies.last().unwrap();
    assert_eq!(best, -32 * ONE);
}

#[test]
fn two_spin_antiferromagnet_reaches_exact_ground_state() {
    // N = 2, J01 = +1, h = 0: the exact ground state energy is -1.
    let entries = vec![(0u32, 1u32, ONE)];
    let instance = BqmIsingInstance::from_entries(2, &entries, false).unwrap();
    let params = PtIcmParams::default();
    let results = pt_icm_minimize(&instance, &params).unwrap();
    let best = *results.gs_energies.last().unwrap();
    assert_eq!(best, -ONE);
}

#[test]
fn runner_rejects_odd_chains_with_icm() {
    let instance = make_ising_2d_instance(3);
    let mut params = PtIcmParams::default();
    params.icm = true;
    params.num_replica_chains = 3;
    assert!(PtIcmRunner::new(&instance, &params).is_err());
}

#[test]
fn runner_rejects_unusable_parameters() {
    let instance = make_ising_2d_instance(3);
    let mut params = PtIcmParams::default();
    params.num_sweeps = 0;
    assert!(PtIcmRunner::new(&instance, &params).is_err());
}

#[test]
fn gs_log_is_strictly_decreasing() {
    let instance = make_ising_2d_instance(6);
    let mut params = PtIcmParams::default();
    params.num_sweeps = 100;
    let results = pt_icm_minimize(&instance, &params).unwrap();
    assert!(!results.gs_energies.is_empty());
    for w in results.gs_energies.windows(2) {
        assert!(w[0] > w[1]);
    }
    assert_eq!(results.gs_energies.len(), results.gs_time_steps.len());
    assert_eq!(results.gs_energies.len(), results.gs_states.len());
}

#[test]
fn parallel_run_matches_interface() {
    let instance = make_ising_2d_instance(4);
    let mut params = PtIcmParams::default();
    params.num_sweeps = 50;
    params.threads = 4;
    let results = pt_icm_minimize(&instance, &params).unwrap();
    assert_eq!(results.instance_size, 16);
    assert_eq!(results.acceptance_counts.len(), 8);
    assert!(!results.gs_energies.is_empty());
}
