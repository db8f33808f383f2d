//! Instance construction, energies and bit packing.
use tamc::instance::BqmIsingInstance;
use tamc::spins::{decode_bytes, decode_u64_vec, IsingState};

const ONE: i64 = 65536;

/// Entries of an L x L periodic square lattice with uniform coupling.
fn lattice_entries(l: u32, k: i64) -> Vec<(u32, u32, i64)> {
    let mut entries = Vec::new();
    for i in 0..l {
        for j in 0..l {
            let q0 = i * l + j;
            let q1 = ((i + 1) % l) * l + j;
            let q2 = i * l + (j + 1) % l;
            entries.push((q0, q1, k));
            entries.push((q0, q2, k));
        }
    }
    entries
}

fn state_of(spins: &[i8]) -> IsingState {
    IsingState { arr: spins.to_vec(), energy: 0, energy_init: false }
}

#[test]
fn energy_matches_hand_computed_hamiltonian() {
    // Two spins, J01 = +1, h0 = 3, h1 = -2 (in fixed point).
    let entries = vec![(0u32, 1u32, ONE), (0, 0, 3 * ONE), (1, 1, -2 * ONE)];
    let inst = BqmIsingInstance::from_entries(2, &entries, false).unwrap();
    // H(s) = 3 s0 - 2 s1 + s0 s1.
    let cases: [([i8; 2], i64); 4] = [
        ([1, 1], 3 - 2 + 1),
        ([1, -1], 3 + 2 - 1),
        ([-1, 1], -3 - 2 - 1),
        ([-1, -1], -3 + 2 + 1),
    ];
    for (spins, expect) in cases.iter() {
        let st = state_of(spins);
        assert_eq!(inst.energy_ref(&st), expect * ONE);
    }
}

#[test]
fn energy_agrees_with_energy_ref_after_invalidation() {
    let entries = lattice_entries(3, -ONE);
    let inst = BqmIsingInstance::from_entries(9, &entries, false).unwrap();
    let mut st = state_of(&[1, -1, 1, -1, 1, -1, 1, 1, -1]);
    let e_ref = inst.energy_ref(&st);
    let e_cached = inst.energy(&mut st);
    assert_eq!(e_ref, e_cached);
    // Invalidate and recompute: same value again.
    st.energy_init = false;
    let e_again = inst.energy(&mut st);
    assert_eq!(e_ref, e_again);
}

#[test]
fn delta_energy_matches_energy_difference() {
    let entries = lattice_entries(4, -ONE);
    let inst = BqmIsingInstance::from_entries(16, &entries, false).unwrap();
    let spins: [i8; 16] = [1, -1, 1, 1, -1, -1, 1, -1, 1, 1, -1, 1, -1, -1, 1, 1];
    for i in 0..16u32 {
        let st = state_of(&spins);
        let de = inst.delta_energy(&st, i);
        let e0 = inst.energy_ref(&st);
        let mut flipped = spins;
        flipped[i as usize] = -flipped[i as usize];
        let st2 = state_of(&flipped);
        let e1 = inst.energy_ref(&st2);
        assert_eq!(e1 - e0, de);
    }
}

#[test]
fn qubo_single_diagonal_entry() {
    // One line "0 0 4" read under the QUBO rule: offset 2, h0 = 2.
    let entries = vec![(0u32, 0u32, 4 * ONE)];
    let inst = BqmIsingInstance::from_entries(1, &entries, true).unwrap();
    assert_eq!(inst.offset, 2 * ONE);
    assert_eq!(inst.bias[0], 2 * ONE);
    assert!(inst.coupling_vecs[0].is_empty());
    // Ising energy at s0 = +1 equals the QUBO value 4; at -1 it is 0.
    let up = state_of(&[1]);
    let down = state_of(&[-1]);
    assert_eq!(inst.energy_ref(&up), 4 * ONE);
    assert_eq!(inst.energy_ref(&down), 0);
}

#[test]
fn qubo_off_diagonal_entry() {
    // One line "0 1 4": offset 1, h0 = h1 = 1, J01 = 1, each in
    // fixed point.
    let entries = vec![(0u32, 1u32, 4 * ONE)];
    let inst = BqmIsingInstance::from_entries(2, &entries, true).unwrap();
    assert_eq!(inst.offset, 1 * ONE);
    assert_eq!(inst.bias[0], 1 * ONE);
    assert_eq!(inst.bias[1], 1 * ONE);
    // Energy at (+1, +1) equals the QUBO value 4.
    let both_up = state_of(&[1, 1]);
    assert_eq!(inst.energy_ref(&both_up), 4 * ONE);
    // Energy at (-1, -1), i.e. x = (1, 1) in QUBO variables... x=0:
    let both_down = state_of(&[-1, -1]);
    assert_eq!(inst.energy_ref(&both_down), 0);
}

#[test]
fn from_entries_rejects_out_of_range_index() {
    let entries = vec![(0u32, 5u32, ONE)];
    assert!(BqmIsingInstance::from_entries(2, &entries, false).is_err());
}

#[test]
fn bit_packing_round_trip_bytes() {
    let spins: [i8; 11] = [1, -1, -1, 1, 1, 1, -1, 1, -1, -1, 1];
    let st = state_of(&spins);
    let bytes = st.as_bytes();
    assert_eq!(bytes.len(), 2);
    let back = decode_bytes(&bytes, 11);
    assert_eq!(back, spins.to_vec());
}

#[test]
fn bit_packing_round_trip_words() {
    let mut spins = Vec::new();
    for i in 0..70 {
        spins.push(if i % 3 == 0 { -1i8 } else { 1i8 });
    }
    let st = IsingState { arr: spins.clone(), energy: 0, energy_init: false };
    let words = st.as_u64_vec();
    assert_eq!(words.len(), 2);
    let back = decode_u64_vec(&words, 70);
    assert_eq!(back, spins);
}

#[test]
fn binary_string_and_magnetization() {
    let st = state_of(&[1, -1, -1, 1]);
    assert_eq!(st.as_binary_string(), "0110");
    assert_eq!(st.mag(), 0);
    let st2 = state_of(&[1, 1, 1]);
    assert_eq!(st2.mag(), 3);
}

#[test]
fn overlap_counts_agreements() {
    let a = state_of(&[1, -1, 1, 1]);
    let b = state_of(&[1, 1, 1, -1]);
    assert_eq!(a.overlap(&b), 0);
    assert_eq!(a.overlap(&a), 4);
}

#[test]
fn suscept_is_weighted_overlap() {
    let entries = vec![(0u32, 1u32, ONE)];
    let inst = BqmIsingInstance::from_entries(2, &entries, false).unwrap();
    // Coefficient row (2, 3) against overlap (+1, -1): chi = 2 - 3.
    let coefs = vec![vec![2 * ONE, 3 * ONE]];
    let inst = inst.with_suscept(&coefs);
    assert_eq!(inst.suscept_coefs.len(), 1);
    let overlap: Vec<i8> = vec![1, -1];
    assert_eq!(inst.suscept(&overlap, 0), -ONE);
}

#[test]
fn with_suscept_skips_wrong_length_rows() {
    let entries = vec![(0u32, 1u32, ONE)];
    let inst = BqmIsingInstance::from_entries(2, &entries, false).unwrap();
    let coefs = vec![vec![ONE, ONE, ONE], vec![ONE, -ONE]];
    let inst = inst.with_suscept(&coefs);
    // The length-3 row is skipped; the length-2 row is kept.
    assert_eq!(inst.suscept_coefs.len(), 1);
    assert_eq!(inst.suscept_coefs[0], vec![ONE, -ONE]);
}
