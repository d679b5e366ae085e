use cmt_software::circuit::{ArithCircuit, CircuitError, Gate};
use cmt_software::field::{add_mod, inv_mod, mul_mod, neg_mod, pow_mod, sub_mod};
use cmt_software::mle::{into_bit_arr, mle_interpolate, mle_values};
use cmt_software::poly::{interpolate, line_point};
use cmt_software::protocol::{run_protocol, run_protocol_with_challenges, Verifier};
use cmt_software::prover::Prover;

fn input(v: u64) -> Gate {
    Gate::new(0, 0, false, v)
}

/// One output `(x0 + x1) * (x2 + x3)`.
fn product_of_sums(x: [u64; 4], modulus: u64) -> ArithCircuit {
    let layers = vec![
        vec![Gate::new(0, 1, false, 0)],
        vec![Gate::new(0, 1, true, 0), Gate::new(2, 3, true, 0)],
        vec![input(x[0]), input(x[1]), input(x[2]), input(x[3])],
    ];
    match ArithCircuit::new(layers, modulus) {
        Ok(c) => c,
        Err(e) => panic!("circuit refused: {:?}", e),
    }
}

/// Four layers, three outputs, mixed operations and shared inputs.
fn wider_circuit(modulus: u64) -> ArithCircuit {
    let layers = vec![
        vec![Gate::new(0, 1, true, 0), Gate::new(1, 2, false, 0), Gate::new(2, 2, true, 0)],
        vec![Gate::new(0, 3, false, 0), Gate::new(1, 2, true, 0), Gate::new(4, 0, false, 0)],
        vec![
            Gate::new(0, 1, true, 0),
            Gate::new(1, 2, false, 0),
            Gate::new(2, 3, true, 0),
            Gate::new(3, 0, false, 0),
            Gate::new(1, 1, true, 0),
        ],
        vec![input(3), input(1), input(4), input(1)],
    ];
    ArithCircuit::new(layers, modulus).ok().unwrap()
}

fn needed(c: &ArithCircuit) -> usize {
    (c.circuit.len() - 1) * (2 * c.num_bits + 1)
}

/// Challenge sequences from a linear congruential generator.
fn challenges(seed: u64, count: usize, modulus: u64) -> Vec<u64> {
    let mut s = seed.wrapping_mul(6364136223846793005).wrapping_add(1442695040888963407);
    let mut out = Vec::new();
    for _ in 0..count {
        s = s.wrapping_mul(6364136223846793005).wrapping_add(1442695040888963407);
        out.push((s >> 33) % modulus);
    }
    out
}

#[test]
fn field_operations() {
    assert_eq!(add_mod(60, 50, 101), 9);
    assert_eq!(sub_mod(3, 5, 101), 99);
    assert_eq!(neg_mod(1, 17), 16);
    assert_eq!(neg_mod(0, 17), 0);
    assert_eq!(mul_mod(50, 50, 101), 76);
    assert_eq!(pow_mod(3, 4, 17), 13);
    assert_eq!(mul_mod(inv_mod(5, 101), 5, 101), 1);
    let big: u64 = 4294967291;
    assert_eq!(mul_mod(big - 1, big - 1, big), 1);
}

#[test]
fn labels_are_little_endian() {
    assert_eq!(into_bit_arr(5, 3), vec![1, 0, 1]);
    assert_eq!(into_bit_arr(6, 4), vec![0, 1, 1, 0]);
    assert_eq!(into_bit_arr(3, 0), Vec::<u64>::new());
}

#[test]
fn eq_is_an_indicator_on_the_cube() {
    for a in 0..8usize {
        for b in 0..8usize {
            let ba = into_bit_arr(a, 3);
            let bb = into_bit_arr(b, 3);
            let e = mle_interpolate(&ba, &bb, 101);
            assert_eq!(e, if a == b { 1 } else { 0 });
        }
    }
}

#[test]
fn eq_off_the_cube() {
    // eq([1, 0], [3, 5]) = 3 * (1 - 5) = -12 = 89 mod 101
    assert_eq!(mle_interpolate(&[1, 0], &[3, 5], 101), 89);
}

#[test]
fn extension_agrees_with_layer_values() {
    let c = wider_circuit(97);
    for layer in 0..c.circuit.len() {
        let gates = c.get_layer(layer);
        for (j, g) in gates.iter().enumerate() {
            let pt = into_bit_arr(j, c.num_bits);
            assert_eq!(c.layer_mle(layer, &pt), g.val());
        }
    }
}

#[test]
fn extension_of_a_table_off_the_cube() {
    // table [4, 7] on one bit: 4 * (1 - x) + 7 * x = 4 + 3x; at x = 10: 34
    assert_eq!(mle_values(&vec![4, 7], &[10], 1, 101), 34);
}

#[test]
fn evaluation_is_deterministic() {
    let mut c = wider_circuit(97);
    let first: Vec<Vec<u64>> = c.circuit.iter().map(|l| l.iter().map(|g| g.val()).collect()).collect();
    c.evaluate_circuit();
    let second: Vec<Vec<u64>> = c.circuit.iter().map(|l| l.iter().map(|g| g.val()).collect()).collect();
    c.evaluate_circuit();
    let third: Vec<Vec<u64>> = c.circuit.iter().map(|l| l.iter().map(|g| g.val()).collect()).collect();
    assert_eq!(first, second);
    assert_eq!(second, third);
}

#[test]
fn evaluation_values() {
    let c = wider_circuit(97);
    // layer 2: 3+1, 1*4, 4+1, 1*3, 1+1
    let l2: Vec<u64> = c.get_layer(2).iter().map(|g| g.val()).collect();
    assert_eq!(l2, vec![4, 4, 5, 3, 2]);
    let l1: Vec<u64> = c.get_layer(1).iter().map(|g| g.val()).collect();
    assert_eq!(l1, vec![12, 9, 8]);
    let l0: Vec<u64> = c.get_layer(0).iter().map(|g| g.val()).collect();
    assert_eq!(l0, vec![21, 72, 16]);
    assert_eq!(c.num_bits, 3);
    assert_eq!(c.num_layers(), 3);
}

#[test]
fn scenario_output_value() {
    let c = product_of_sums([2, 3, 4, 5], 101);
    assert_eq!(c.get_layer(0)[0].val(), 45);
    assert_eq!(c.num_bits, 2);
}

#[test]
fn scenario_accepts() {
    let c = product_of_sums([2, 3, 4, 5], 101);
    assert!(run_protocol(&c));
    let cs = vec![3, 7, 11, 13, 5, 2, 9, 4, 8, 6];
    assert_eq!(cs.len(), needed(&c));
    assert!(run_protocol_with_challenges(&c, &cs));
}

#[test]
fn scenario_rejects_changed_input() {
    let mut c = product_of_sums([2, 3, 4, 5], 101);
    c.set_gate_val(2, 2, 6);
    assert_eq!(c.get_layer(0)[0].val(), 45);
    let cs = vec![3, 7, 11, 13, 5, 2, 9, 4, 8, 6];
    assert!(!run_protocol_with_challenges(&c, &cs));
}

#[test]
fn round_polynomials_are_consistent() {
    let c = wider_circuit(97);
    let p = c.modulus;
    let cs = challenges(11, needed(&c), p);
    let mut prover = Prover::new(&c, 0);
    let v = Verifier::new(&c);
    // the first claim is the stored value of output gate 0
    assert_eq!(v.claim, 21);
    let n = c.num_bits;
    let mut pos = 0;
    let mut carried = v.claim;
    for layer in 0..c.circuit.len() - 1 {
        let mut claim = carried;
        for k in 0..2 * n {
            let poly = prover.sum_check();
            assert_eq!(add_mod(poly[0], poly[1], p), claim);
            claim = interpolate(&poly, cs[pos + k], p);
            prover.add_challenge(cs[pos + k]);
        }
        let (w0, w1) = prover.get_gate_value();
        let vals = prover.get_all_vals();
        assert_eq!(vals.len(), n + 1);
        assert_eq!(vals[0], w0);
        assert_eq!(vals[1], w1);
        carried = interpolate(&vals, cs[pos + 2 * n], p);
        if layer + 2 < c.circuit.len() {
            prover.next_layer(cs[pos + 2 * n]);
        }
        pos += 2 * n + 1;
    }
    // the last claim is the extension of the inputs at the last point
    assert!(run_protocol_with_challenges(&c, &cs));
}

#[test]
fn completeness_over_many_challenges() {
    let c = wider_circuit(97);
    for seed in 0..40 {
        let cs = challenges(seed, needed(&c), c.modulus);
        assert!(run_protocol_with_challenges(&c, &cs));
    }
    for _ in 0..5 {
        assert!(run_protocol(&c));
    }
}

#[test]
fn completeness_on_one_gate_layers() {
    let layers = vec![vec![Gate::new(0, 0, false, 0)], vec![Gate::new(0, 0, true, 0)], vec![input(6)]];
    let c = ArithCircuit::new(layers, 101).ok().unwrap();
    assert_eq!(c.num_bits, 0);
    assert_eq!(c.get_layer(0)[0].val(), 43);
    assert!(run_protocol(&c));
}

#[test]
fn inputs_only_circuit_accepts() {
    let c = ArithCircuit::new(vec![vec![input(3), input(4)]], 17).ok().unwrap();
    assert!(run_protocol_with_challenges(&c, &[]));
}

#[test]
fn soundness_spot_check_small_field() {
    let mut c = product_of_sums([2, 3, 4, 5], 17);
    assert_eq!(c.get_layer(0)[0].val(), 11);
    c.set_gate_val(2, 2, 6);
    let mut rejected = 0;
    for seed in 0..200 {
        let cs = challenges(seed, needed(&c), 17);
        if !run_protocol_with_challenges(&c, &cs) {
            rejected += 1;
        }
    }
    assert!(rejected >= 150, "rejected only {} of 200", rejected);
}

#[test]
fn soundness_changed_middle_gate() {
    let mut c = wider_circuit(17);
    c.set_gate_val(1, 1, 0);
    for seed in 0..50 {
        let cs = challenges(seed, needed(&c), 17);
        assert!(!run_protocol_with_challenges(&c, &cs));
    }
    assert!(!run_protocol(&c));
}

#[test]
fn line_through_two_points() {
    let pt = line_point(&[1, 2], &[4, 10], 3, 101);
    assert_eq!(pt, vec![10, 26]);
    assert_eq!(line_point(&[1, 2], &[4, 10], 0, 101), vec![1, 2]);
}

#[test]
fn interpolation_of_a_quadratic() {
    // x^2 + 1 at 0, 1, 2 is 1, 2, 5; at 7 it is 50
    assert_eq!(interpolate(&[1, 2, 5], 7, 101), 50);
    assert_eq!(interpolate(&[9], 4, 101), 9);
}

#[test]
fn constructor_errors() {
    let ok_layers = || vec![vec![Gate::new(0, 1, true, 0)], vec![input(1), input(2)]];
    assert!(matches!(ArithCircuit::new(ok_layers(), 1), Err(CircuitError::BadModulus)));
    assert!(matches!(ArithCircuit::new(ok_layers(), 0x1_0000_0001), Err(CircuitError::BadModulus)));
    assert!(matches!(ArithCircuit::new(vec![], 17), Err(CircuitError::NoLayers)));
    let bad = vec![
        vec![Gate::new(0, 1, true, 0), Gate::new(0, 2, true, 0)],
        vec![input(1), input(2)],
    ];
    assert!(matches!(ArithCircuit::new(bad, 17), Err(CircuitError::BadWiring { layer: 0, gate: 1 })));
    assert!(ArithCircuit::new(ok_layers(), 17).is_ok());
}

#[test]
fn inputs_are_reduced() {
    let c = ArithCircuit::new(vec![vec![Gate::new(0, 1, true, 0)], vec![input(20), input(30)]], 17).ok().unwrap();
    let vals: Vec<u64> = c.get_inputs().iter().map(|g| g.val()).collect();
    assert_eq!(vals, vec![3, 13]);
    assert_eq!(c.get_layer(0)[0].val(), 16);
}

#[test]
fn cursor_moves_down_and_wraps() {
    let mut c = product_of_sums([2, 3, 4, 5], 101);
    assert_eq!(c.get_this_layer().len(), 1);
    c.next_layer();
    assert_eq!(c.get_this_layer().len(), 2);
    assert_eq!(c.get_last_layer().len(), 1);
    assert!(!c.is_gate_add(0));
    assert_eq!(c.get_gate_val(1), 9);
    assert_eq!(c.get_gate_wiring(1), (2, 3));
    assert_eq!(c.num_gate_at_layer(), 2);
    c.next_layer();
    c.next_layer();
    assert_eq!(c.get_this_layer().len(), 1);
    c.set_curr_layer(5);
    assert_eq!(c.get_this_layer().len(), 4);
    assert_eq!(c.get_gate_val(3), 5);
}

#[test]
fn cursor_extensions() {
    let mut c = product_of_sums([2, 3, 4, 5], 101);
    c.set_curr_layer(1);
    // gate 1 of layer 1 sits at label [1, 0]
    assert_eq!(c.mle_gate_val(&[1, 0]), 9);
    // the mult wiring of layer 0 is one at (0; 0, 1), labels [0,0], [0,0], [1,0]
    assert_eq!(c.mle_wiring(&[0, 0], &[0, 0], &[1, 0], false), 1);
    assert_eq!(c.mle_wiring(&[0, 0], &[0, 0], &[1, 0], true), 0);
    assert_eq!(c.mle_wiring(&[0, 0], &[1, 0], &[0, 0], false), 0);
}

#[test]
fn gate_accessors() {
    let g = Gate::new(3, 4, true, 9);
    assert_eq!(g.get_wiring(), (3, 4));
    assert!(g.is_add());
    assert_eq!(g.val(), 9);
}
