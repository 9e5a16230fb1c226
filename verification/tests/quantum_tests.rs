use tgd_aap::quantum_bridge::circuit::QuantumCircuit;
use tgd_aap::quantum_bridge::runner::{most_probable_state, total_key, SimulationResult};

#[test]
fn from_features_layout_for_three_features() {
    let c = QuantumCircuit::from_features(&[10, 20, 30]);
    assert_eq!(c.num_qubits, 3);
    let names: Vec<&str> = c.instructions.iter().map(|g| g.gate.as_str()).collect();
    assert_eq!(names, vec!["ry", "ry", "ry", "cx", "cx"]);
    assert_eq!(c.instructions[1].qubits, vec![1]);
    assert_eq!(c.instructions[1].params, vec![20]);
    assert_eq!(c.instructions[4].qubits, vec![1, 2]);
    assert!(c.instructions[4].params.is_empty());
}

#[test]
fn from_features_clamps_qubit_count() {
    let empty = QuantumCircuit::from_features(&[]);
    assert_eq!(empty.num_qubits, 1);
    assert!(empty.instructions.is_empty());
    let many: Vec<u64> = (0..12).collect();
    let c = QuantumCircuit::from_features(&many);
    assert_eq!(c.num_qubits, 8);
    assert_eq!(c.instructions.len(), 8 + 7);
    assert_eq!(c.instructions[7].params, vec![7]);
}

#[test]
fn to_qasm_lays_out_program_text() {
    let mut c = QuantumCircuit::new(2);
    c.add_gate("ry".to_string(), vec![0], vec![0.5f64.to_bits()]);
    c.add_gate("u".to_string(), vec![1], vec![1.0f64.to_bits(), 2.5f64.to_bits()]);
    c.add_gate("cx".to_string(), vec![0, 1], vec![]);
    let texts = vec![vec!["0.5".to_string()], vec!["1".to_string(), "2.5".to_string()], vec![]];
    assert_eq!(
        c.to_qasm(&texts),
        "QREG q[2];\nry(0.5) q[0];\nu(1,2.5) q[1];\ncx q[0],q[1];\n"
    );
}

#[test]
fn to_qasm_of_empty_circuit() {
    assert_eq!(QuantumCircuit::new(12).to_qasm(&vec![]), "QREG q[12];\n");
}

#[test]
fn most_probable_state_picks_last_greatest() {
    let amps: Vec<u64> = [0.1f64, 0.4, 0.4, 0.1].iter().map(|v| v.to_bits()).collect();
    assert_eq!(most_probable_state(&amps), 2);
    assert_eq!(most_probable_state(&[]), 0);
}

#[test]
fn total_key_orders_like_total_cmp() {
    let values = [f64::NEG_INFINITY, -2.0, -0.0, 0.0, 1e-300, 3.0, f64::INFINITY, f64::NAN];
    for a in values.iter() {
        for b in values.iter() {
            assert_eq!(total_key(a.to_bits()).cmp(&total_key(b.to_bits())), a.total_cmp(b));
        }
    }
}

#[test]
fn simulation_result_matches_iterator_max_by() {
    let amps = [0.2f64, -1.0, 0.7, f64::NAN, 0.7, -0.0];
    let bits: Vec<u64> = amps.iter().map(|v| v.to_bits()).collect();
    let expected = amps.iter().enumerate().max_by(|a, b| a.1.total_cmp(b.1)).map(|(i, _)| i).unwrap_or(0);
    let r = SimulationResult::from_amplitudes(bits.clone());
    assert_eq!(r.max_state, expected);
    assert_eq!(r.amplitudes, bits);
}
