use bgw::circuit::{Circuit, GateType};
use bgw::field::scalar_from_u64;
use bgw::MpcError;

#[test]
fn test_circuit_construction_and_accessors() {
    let mut c = Circuit::new();
    let a = c.add_gate(GateType::Input { owner: 0 }, None, None).unwrap();
    let b = c.add_gate(GateType::Input { owner: 1 }, None, None).unwrap();
    let x = c.add_gate(GateType::Input { owner: 0 }, None, None).unwrap();
    let sum = c.add_gate(GateType::Add, Some(a), Some(b)).unwrap();
    let prod = c.add_gate(GateType::Mul, Some(sum), Some(x)).unwrap();
    let out = c.add_gate(GateType::Output, Some(prod), None).unwrap();
    assert_eq!((a, b, x, sum, prod, out), (0, 1, 2, 3, 4, 5));

    assert_eq!(c.input_wires_by_owner(0), vec![a, x]);
    assert_eq!(c.input_wires_by_owner(1), vec![b]);
    assert_eq!(c.input_wires_by_owner(2), Vec::<usize>::new());
    assert_eq!(c.output_wires(), vec![out]);
    assert_eq!(c.topological_order(), vec![0, 1, 2, 3, 4, 5]);
}

#[test]
fn test_gate_predecessors_precede() {
    // every accepted gate references only strictly smaller ids
    let mut c = Circuit::new();
    let a = c.add_gate(GateType::Input { owner: 0 }, None, None).unwrap();
    let b = c.add_gate(GateType::Input { owner: 1 }, None, None).unwrap();
    let s = c.add_gate(GateType::Add, Some(a), Some(b)).unwrap();
    let m = c.add_gate(GateType::ConstMul(scalar_from_u64(7)), Some(s), None).unwrap();
    c.add_gate(GateType::Output, Some(m), None).unwrap();
    for g in &c.gates {
        if let Some(l) = g.left {
            assert!(l < g.id);
        }
        if let Some(r) = g.right {
            assert!(r < g.id);
        }
    }
}

#[test]
fn test_add_gate_rejects_bad_shapes() {
    let mut c = Circuit::new();
    let a = c.add_gate(GateType::Input { owner: 0 }, None, None).unwrap();
    // a forward (or self) reference is refused
    assert_eq!(c.add_gate(GateType::Add, Some(a), Some(1)), Err(MpcError::InvalidCircuit));
    // missing operands are refused
    assert_eq!(c.add_gate(GateType::Add, Some(a), None), Err(MpcError::InvalidCircuit));
    assert_eq!(c.add_gate(GateType::Output, None, None), Err(MpcError::InvalidCircuit));
    // an input gate takes no operands
    assert_eq!(
        c.add_gate(GateType::Input { owner: 1 }, Some(a), None),
        Err(MpcError::InvalidCircuit)
    );
    // the circuit is unchanged by the refusals
    assert_eq!(c.gates.len(), 1);
}
