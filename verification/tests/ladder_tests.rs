//! The temperature ladder: geometric construction and adaptive
//! refinement.
use tamc::instance::BqmIsingInstance;
use tamc::ladder::pt_optimize_beta;
use tamc::params::{BetaOptions, PtIcmParams};

const ONE: i64 = 65536;

fn lattice_entries(l: u32, k: i64) -> Vec<(u32, u32, i64)> {
    let mut entries = Vec::new();
    for i in 0..l {
        for j in 0..l {
            let q0 = i * l + j;
            let q1 = ((i + 1) % l) * l + j;
            let q2 = i * l + (j + 1) % l;
            entries.push((q0, q1, k));
            entries.push((q0, q2, k));
        }
    }
    entries
}

#[test]
fn geometric_ladder_holds_endpoints_and_order() {
    let opts = BetaOptions::new_geometric(6554, 655360, 8);
    let arr = opts.get_beta_arr();
    assert_eq!(arr.len(), 8);
    assert_eq!(arr[0], 6554);
    assert_eq!(arr[7], 655360);
    for w in arr.windows(2) {
        assert!(w[0] <= w[1]);
    }
    // The interior grows roughly geometrically: strictly between the
    // endpoints.
    for b in &arr[1..7] {
        assert!(*b > 6554 && *b < 655360);
    }
}

#[test]
fn explicit_ladder_is_returned_as_given() {
    let opts = BetaOptions::Arr(vec![ONE, 2 * ONE, 4 * ONE]);
    let arr = opts.get_beta_arr();
    assert_eq!(arr, vec![ONE, 2 * ONE, 4 * ONE]);
}

#[test]
fn ladder_optimizer_preserves_endpoints_and_order() {
    // An ensemble of eight 2D lattice instances of L = 8, five
    // refinement iterations from a geometric ladder.
    let l = 8u32;
    let n = (l * l) as usize;
    let mut instances = Vec::new();
    for _ in 0..8 {
        instances.push(
            BqmIsingInstance::from_entries(n, &lattice_entries(l, -ONE), false).unwrap(),
        );
    }
    let mut params = PtIcmParams::default();
    params.num_sweeps = 64;
    params.beta = BetaOptions::new_geometric(6554, 655360, 8);
    let (out_params, tau_hist) = pt_optimize_beta(&instances, &params, 5).unwrap();
    assert!(tau_hist.len() <= 5);
    match out_params.beta {
        BetaOptions::Arr(arr) => {
            assert_eq!(arr.len(), 8);
            assert_eq!(arr[0], 6554);
            assert_eq!(arr[7], 655360);
            for w in arr.windows(2) {
                assert!(w[0] <= w[1]);
            }
        },
        BetaOptions::Geometric(_) => panic!("optimizer returns an explicit ladder"),
    }
}
