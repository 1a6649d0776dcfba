use bgw::circuit::{Circuit, GateType};
use bgw::field::{scalar_from_u64, Scalar};
use bgw::message::Message;
use bgw::party::{EvalOutcome, Party, ShareCollector};
use bgw::sharing::Share;
use bgw::MpcError;

/// Runs the whole protocol for all parties in lockstep over in-memory
/// mailboxes and returns, per party, the reconstructed value of every
/// output wire.
fn run_protocol(
    circuit: &Circuit,
    n: usize,
    t: usize,
    inputs: &[Vec<(usize, Scalar)>],
) -> Vec<Vec<(usize, Scalar)>> {
    let n_wires = circuit.gates.len();
    let mut parties: Vec<Party> = (0..n).map(|id| Party::new(id, n, t, n_wires)).collect();

    // input phase: share owned inputs, deliver, absorb
    let mut inboxes: Vec<Vec<Message>> = (0..n).map(|_| Vec::new()).collect();
    for id in 0..n {
        let groups = parties[id].input_phase(circuit, &inputs[id]).unwrap();
        for group in groups {
            for (peer, msg) in group {
                inboxes[peer].push(msg);
            }
        }
    }
    for id in 0..n {
        let msgs: Vec<Message> = inboxes[id].drain(..).collect();
        for msg in msgs {
            if let Message::InputShare(w, s) = msg {
                parties[id].absorb_input_share(w, s).unwrap();
            }
        }
        assert!(parties[id].input_complete(circuit));
    }

    // evaluation phase: all parties advance to the same Mul gate, run one
    // degree-reduction round, and resume, until everyone is finished
    let mut pos: Vec<usize> = vec![0; n];
    loop {
        let mut rounds: Vec<Option<(usize, ShareCollector)>> = Vec::new();
        let mut mul_msgs: Vec<Vec<Message>> = (0..n).map(|_| Vec::new()).collect();
        let mut finished = true;
        for id in 0..n {
            match parties[id].evaluate_circuit(circuit, pos[id]).unwrap() {
                EvalOutcome::Finished => {
                    pos[id] = circuit.gates.len();
                    rounds.push(None);
                }
                EvalOutcome::AwaitMul { gate, round, outgoing } => {
                    finished = false;
                    for (peer, msg) in outgoing {
                        mul_msgs[peer].push(msg);
                    }
                    rounds.push(Some((gate, round)));
                }
            }
        }
        if finished {
            break;
        }
        // broadcast step: everyone absorbs the others' degree-2t shares
        for id in 0..n {
            if let Some((_, round)) = rounds[id].as_mut() {
                for msg in &mul_msgs[id] {
                    if let Message::MulShare(w, s) = msg {
                        round.absorb(*w, *s);
                    }
                }
            }
        }
        // open and reshare
        let mut collected: Vec<Vec<Share>> = (0..n).map(|_| Vec::new()).collect();
        for id in 0..n {
            if let Some((_, round)) = &rounds[id] {
                assert!(round.count() >= 2 * t + 1);
                let (_product, reshares) = parties[id].eval_mul_open(round).unwrap();
                for q in 0..n {
                    collected[q].push(reshares[q]);
                }
            }
        }
        // aggregate and resume after the Mul gate
        for id in 0..n {
            if let Some((gate, _)) = &rounds[id] {
                let mine: Vec<Share> = collected[id].drain(..).collect();
                parties[id].eval_mul_finish(*gate, &mine).unwrap();
                pos[id] = gate + 1;
            }
        }
    }

    // output phase: exchange output shares and reconstruct
    let out_wires = circuit.output_wires();
    let mut out_msgs: Vec<Vec<Message>> = (0..n).map(|_| Vec::new()).collect();
    let mut collectors: Vec<Vec<ShareCollector>> = Vec::new();
    for id in 0..n {
        let (groups, cols) = parties[id].output_phase(&out_wires).unwrap();
        for group in groups {
            for (peer, msg) in group {
                out_msgs[peer].push(msg);
            }
        }
        collectors.push(cols);
    }
    let mut results: Vec<Vec<(usize, Scalar)>> = Vec::new();
    for id in 0..n {
        let msgs: Vec<Message> = out_msgs[id].drain(..).collect();
        for msg in msgs {
            if let Message::OutputShare(w, s) = msg {
                for col in collectors[id].iter_mut() {
                    col.absorb(w, s);
                }
            }
        }
        let mut out: Vec<(usize, Scalar)> = Vec::new();
        for col in &collectors[id] {
            assert!(col.count() >= t + 1);
            out.push((col.wire, parties[id].reconstruct_output(col).unwrap()));
        }
        results.push(out);
    }
    results
}

#[test]
fn test_add_then_mul_five_parties() {
    // (a + b) * c with owners 0, 1, 2 and parties 3, 4 as helpers
    let mut c = Circuit::new();
    let a = c.add_gate(GateType::Input { owner: 0 }, None, None).unwrap();
    let b = c.add_gate(GateType::Input { owner: 1 }, None, None).unwrap();
    let cc = c.add_gate(GateType::Input { owner: 2 }, None, None).unwrap();
    let sum = c.add_gate(GateType::Add, Some(a), Some(b)).unwrap();
    let prod = c.add_gate(GateType::Mul, Some(sum), Some(cc)).unwrap();
    let out = c.add_gate(GateType::Output, Some(prod), None).unwrap();

    let inputs: Vec<Vec<(usize, Scalar)>> = vec![
        vec![(a, scalar_from_u64(2))],
        vec![(b, scalar_from_u64(3))],
        vec![(cc, scalar_from_u64(4))],
        Vec::new(),
        Vec::new(),
    ];
    let results = run_protocol(&c, 5, 2, &inputs);
    let expected = scalar_from_u64(20);
    for r in &results {
        assert_eq!(r.len(), 1);
        assert_eq!(r[0], (out, expected));
    }
}

#[test]
fn test_constmul_and_add() {
    // ConstMul(7, a) + b with a = 3, b = 5 gives 26
    let mut c = Circuit::new();
    let a = c.add_gate(GateType::Input { owner: 0 }, None, None).unwrap();
    let b = c.add_gate(GateType::Input { owner: 1 }, None, None).unwrap();
    let scaled = c
        .add_gate(GateType::ConstMul(scalar_from_u64(7)), Some(a), None)
        .unwrap();
    let sum = c.add_gate(GateType::Add, Some(scaled), Some(b)).unwrap();
    let out = c.add_gate(GateType::Output, Some(sum), None).unwrap();

    let inputs: Vec<Vec<(usize, Scalar)>> = vec![
        vec![(a, scalar_from_u64(3))],
        vec![(b, scalar_from_u64(5))],
        Vec::new(),
    ];
    let results = run_protocol(&c, 3, 1, &inputs);
    for r in &results {
        assert_eq!(r[0], (out, scalar_from_u64(26)));
    }
}

#[test]
fn test_nested_multiplication_seven_parties() {
    // (a * b) * c with inputs 2, 3, 4 and seven parties: degree reduction
    // composes across consecutive Mul gates
    let mut c = Circuit::new();
    let a = c.add_gate(GateType::Input { owner: 0 }, None, None).unwrap();
    let b = c.add_gate(GateType::Input { owner: 1 }, None, None).unwrap();
    let cc = c.add_gate(GateType::Input { owner: 2 }, None, None).unwrap();
    let ab = c.add_gate(GateType::Mul, Some(a), Some(b)).unwrap();
    let abc = c.add_gate(GateType::Mul, Some(ab), Some(cc)).unwrap();
    let out = c.add_gate(GateType::Output, Some(abc), None).unwrap();

    let inputs: Vec<Vec<(usize, Scalar)>> = vec![
        vec![(a, scalar_from_u64(2))],
        vec![(b, scalar_from_u64(3))],
        vec![(cc, scalar_from_u64(4))],
        Vec::new(),
        Vec::new(),
        Vec::new(),
        Vec::new(),
    ];
    let results = run_protocol(&c, 7, 3, &inputs);
    for r in &results {
        assert_eq!(r[0], (out, scalar_from_u64(24)));
    }
}

#[test]
fn test_degree_reduction_shares_interpolate_to_product() {
    // after one degree-reduction round, the parties' fresh shares at
    // x = 1..n interpolate to the product of the two secrets
    let n = 5;
    let t = 2;
    let mut c = Circuit::new();
    let a = c.add_gate(GateType::Input { owner: 0 }, None, None).unwrap();
    let b = c.add_gate(GateType::Input { owner: 1 }, None, None).unwrap();
    let prod = c.add_gate(GateType::Mul, Some(a), Some(b)).unwrap();
    c.add_gate(GateType::Output, Some(prod), None).unwrap();

    let inputs: Vec<Vec<(usize, Scalar)>> = vec![
        vec![(a, scalar_from_u64(6))],
        vec![(b, scalar_from_u64(7))],
        Vec::new(),
        Vec::new(),
        Vec::new(),
    ];
    let results = run_protocol(&c, n, t, &inputs);
    // end-to-end: every party reconstructs 42, and they all agree
    for r in &results {
        assert_eq!(r[0].1, scalar_from_u64(42));
    }
    for r in &results[1..] {
        assert_eq!(r, &results[0]);
    }
}

#[test]
fn test_missing_input_value_fails() {
    let mut c = Circuit::new();
    let a = c.add_gate(GateType::Input { owner: 0 }, None, None).unwrap();
    c.add_gate(GateType::Output, Some(a), None).unwrap();
    let mut p = Party::new(0, 3, 1, c.gates.len());
    let empty: Vec<(usize, Scalar)> = Vec::new();
    assert_eq!(p.input_phase(&c, &empty), Err(MpcError::MissingInput));
}

#[test]
fn test_foreign_x_coordinate_rejected() {
    // party 1 sits at x = 2; a share at x = 1 is not its own
    let mut p = Party::new(1, 3, 1, 4);
    let s = Share { x: scalar_from_u64(1), value: scalar_from_u64(9) };
    assert_eq!(p.absorb_input_share(0, s), Err(MpcError::InconsistentX));
    let own = Share { x: scalar_from_u64(2), value: scalar_from_u64(9) };
    assert_eq!(p.absorb_input_share(0, own), Ok(()));
}

#[test]
fn test_silent_peer_aborts_multiplication() {
    // a peer that goes silent mid-evaluation leaves the reshare collection
    // short of n, and the multiplication aborts with a timeout rather than
    // storing a corrupt share
    let mut p = Party::new(0, 5, 2, 3);
    let short: Vec<Share> = vec![
        Share { x: scalar_from_u64(1), value: scalar_from_u64(3) },
        Share { x: scalar_from_u64(1), value: scalar_from_u64(4) },
        Share { x: scalar_from_u64(1), value: scalar_from_u64(5) },
        Share { x: scalar_from_u64(1), value: scalar_from_u64(6) },
    ];
    assert_eq!(p.eval_mul_finish(2, &short), Err(MpcError::ProtocolTimeout));
    // the wire stays unset: no silent corruption
    assert_eq!(p.share_at(2), None);
}

#[test]
fn test_mul_round_ignores_other_wires_and_duplicates() {
    let own = Share { x: scalar_from_u64(1), value: scalar_from_u64(5) };
    let mut round = ShareCollector::new(4, own);
    // wrong wire: ignored
    round.absorb(3, Share { x: scalar_from_u64(2), value: scalar_from_u64(8) });
    assert_eq!(round.count(), 1);
    // fresh x on the right wire: kept
    round.absorb(4, Share { x: scalar_from_u64(2), value: scalar_from_u64(8) });
    assert_eq!(round.count(), 2);
    // duplicate x: discarded
    round.absorb(4, Share { x: scalar_from_u64(2), value: scalar_from_u64(9) });
    assert_eq!(round.count(), 2);
}
