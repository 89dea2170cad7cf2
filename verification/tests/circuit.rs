use pa::circuit::{bit_test, bitvector_test};

#[test]
fn eval_bit_circuit() {
    let q = 65537u64;
    let circ = bit_test(q);
    let zero_vec = vec![0u64];
    let mut inputs = zero_vec.clone();
    assert_eq!(circ.eval(&inputs), zero_vec);
    inputs[0] = 1;
    assert_eq!(circ.eval(&inputs), zero_vec);
    inputs[0] = 2;
    assert_ne!(circ.eval(&inputs), zero_vec);
}

#[test]
fn eval_bitvector_circuit() {
    let q = 65537u64;
    let circ = bitvector_test(q, 2);
    let zero_vec = vec![0u64; 2];
    let mut inputs = vec![0u64, 1];
    assert_eq!(circ.eval(&inputs), zero_vec);
    inputs[0] = 2;
    assert_ne!(circ.eval(&inputs), zero_vec);
}

#[test]
fn collect_wires_bit_circuit() {
    let q = 65537u64;
    let circ = bit_test(q);
    let mut inputs = vec![0u64];
    assert_eq!(
        circ.out_gates[0].get_wire_vals(q, &inputs),
        (0u64, (vec![0u64], vec![65536u64]))
    );
    inputs[0] = 1;
    assert_eq!(
        circ.out_gates[0].get_wire_vals(q, &inputs),
        (0u64, (vec![1u64], vec![0u64]))
    );
}

#[test]
fn collect_wires_bitvector_circuit() {
    let q = 65537u64;
    let circ = bitvector_test(q, 2);
    let inputs = vec![0u64, 1];
    assert_eq!(
        circ.get_wire_vals(&inputs),
        (vec![0u64; 2], (vec![0u64, 1], vec![65536u64, 0]))
    );
}
