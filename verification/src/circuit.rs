//! Arithmetic circuits: a directed acyclic graph of gates in which every
//! referenced predecessor id is strictly smaller than its own id, so
//! insertion order is already a topological order.

use vstd::prelude::*;
use crate::field::Scalar;
use crate::MpcError;

verus! {

/// The kinds of gates an arithmetic circuit supports.
#[derive(Clone, Copy, Debug)]
pub enum GateType {
    /// A private input wire contributed by the given party.
    Input { owner: usize },
    /// Addition of the two upstream wires.
    Add,
    /// Multiplication of the two upstream wires.
    Mul,
    /// Multiplication of the left upstream wire by a public constant.
    ConstMul(Scalar),
    /// Marks the left upstream wire as a protocol output.
    Output,
}

/// One gate; its `id` equals its position in the circuit's gate list.
#[derive(Clone, Copy, Debug)]
pub struct Gate {
    pub id: usize,
    pub gate_type: GateType,
    pub left: Option<usize>,
    pub right: Option<usize>,
}

/// The shape a gate at position `id` must have: upstream references are
/// present exactly where its type requires them, and always point strictly
/// below `id`.
pub open spec fn gate_shape_ok(g: Gate, id: int) -> bool {
    &&& g.id == id
    &&& match g.gate_type {
        GateType::Input { owner: _ } => g.left is None && g.right is None,
        GateType::Add | GateType::Mul => {
            &&& g.left matches Some(l) && l < id
            &&& g.right matches Some(r) && r < id
        },
        GateType::ConstMul(c) => {
            &&& g.left matches Some(l) && l < id
            &&& g.right is None
            &&& c.wf()
        },
        GateType::Output => {
            &&& g.left matches Some(l) && l < id
            &&& g.right is None
        },
    }
}

/// The ids of the `Input` gates owned by `owner`, in insertion order.
pub open spec fn input_wire_ids(gates: Seq<Gate>, owner: usize) -> Seq<usize>
    decreases gates.len(),
{
    if gates.len() == 0 {
        Seq::empty()
    } else {
        let init = input_wire_ids(gates.drop_last(), owner);
        if gates.last().gate_type matches GateType::Input { owner: o } && o == owner {
            init.push(gates.last().id)
        } else {
            init
        }
    }
}

/// The ids of the `Output` gates, in insertion order.
pub open spec fn output_wire_ids(gates: Seq<Gate>) -> Seq<usize>
    decreases gates.len(),
{
    if gates.len() == 0 {
        Seq::empty()
    } else {
        let init = output_wire_ids(gates.drop_last());
        if gates.last().gate_type is Output {
            init.push(gates.last().id)
        } else {
            init
        }
    }
}

/// An arithmetic circuit: an append-only gate list, well formed by
/// construction.
#[derive(Clone, Debug)]
pub struct Circuit {
    pub gates: Vec<Gate>,
}

impl Circuit {
    /// Every gate sits at the position its id names and references only
    /// strictly smaller ids.
    pub open spec fn wf(self) -> bool {
        forall|i: int| 0 <= i < self.gates@.len() ==> gate_shape_ok(#[trigger] self.gates@[i], i)
    }

    /// The empty circuit.
    pub fn new() -> (r: Circuit)
        ensures
            r.wf(),
            r.gates@.len() == 0,
    {
        Circuit { gates: Vec::new() }
    }

    /// Appends a gate and returns its id (its position), or `InvalidCircuit`
    /// exactly when the arguments do not fit its type's shape.
    pub fn add_gate(&mut self, gate_type: GateType, left: Option<usize>, right: Option<usize>) -> (r: Result<
        usize,
        MpcError,
    >)
        requires
            old(self).wf(),
            gate_type matches GateType::ConstMul(c) ==> c.wf(),
        ensures
            final(self).wf(),
            r matches Ok(id) ==> {
                &&& id == old(self).gates@.len()
                &&& final(self).gates@ == old(self).gates@.push(Gate { id, gate_type, left, right })
            },
            r is Err ==> r == Err::<usize, MpcError>(MpcError::InvalidCircuit) && *final(self) == *old(self),
            r is Ok <==> gate_shape_ok(
                Gate { id: old(self).gates@.len() as usize, gate_type, left, right },
                old(self).gates@.len() as int,
            ),
    {
        let id = self.gates.len();
        let ok: bool = match gate_type {
            GateType::Input { owner: _ } => left.is_none() && right.is_none(),
            GateType::Add | GateType::Mul => match (left, right) {
                (Some(l), Some(r)) => l < id && r < id,
                _ => false,
            },
            GateType::ConstMul(_) => match (left, right) {
                (Some(l), None) => l < id,
                _ => false,
            },
            GateType::Output => match (left, right) {
                (Some(l), None) => l < id,
                _ => false,
            },
        };
        if ok {
            self.gates.push(Gate { id, gate_type, left, right });
            Ok(id)
        } else {
            Err(MpcError::InvalidCircuit)
        }
    }

    /// The ids of the input wires owned by `owner`, in insertion order.
    pub fn input_wires_by_owner(&self, owner: usize) -> (r: Vec<usize>)
        ensures
            r@ == input_wire_ids(self.gates@, owner),
    {
        let mut r: Vec<usize> = Vec::new();
        let mut i: usize = 0;
        while i < self.gates.len()
            invariant
                i <= self.gates@.len(),
                r@ == input_wire_ids(self.gates@.subrange(0, i as int), owner),
            decreases self.gates@.len() - i,
        {
            let g = self.gates[i];
            proof {
                let pre = self.gates@.subrange(0, i as int);
                let cur = self.gates@.subrange(0, i + 1);
                assert(cur.drop_last() =~= pre);
                assert(cur.last() == self.gates@[i as int]);
            }
            match g.gate_type {
                GateType::Input { owner: o } => {
                    if o == owner {
                        r.push(g.id);
                    }
                },
                _ => {},
            }
            i += 1;
        }
        proof {
            assert(self.gates@.subrange(0, self.gates@.len() as int) =~= self.gates@);
        }
        r
    }

    /// The ids of the output wires, in insertion order.
    pub fn output_wires(&self) -> (r: Vec<usize>)
        ensures
            r@ == output_wire_ids(self.gates@),
    {
        let mut r: Vec<usize> = Vec::new();
        let mut i: usize = 0;
        while i < self.gates.len()
            invariant
                i <= self.gates@.len(),
                r@ == output_wire_ids(self.gates@.subrange(0, i as int)),
            decreases self.gates@.len() - i,
        {
            let g = self.gates[i];
            proof {
                let pre = self.gates@.subrange(0, i as int);
                let cur = self.gates@.subrange(0, i + 1);
                assert(cur.drop_last() =~= pre);
                assert(cur.last() == self.gates@[i as int]);
            }
            match g.gate_type {
                GateType::Output => {
                    r.push(g.id);
                },
                _ => {},
            }
            i += 1;
        }
        proof {
            assert(self.gates@.subrange(0, self.gates@.len() as int) =~= self.gates@);
        }
        r
    }

    /// A topological order of the wires. Since every gate references only
    /// strictly smaller ids, insertion order itself is one.
    pub fn topological_order(&self) -> (r: Vec<usize>)
        ensures
            r@.len() == self.gates@.len(),
            forall|i: int| 0 <= i < r@.len() ==> #[trigger] r@[i] == i,
    {
        let mut r: Vec<usize> = Vec::new();
        let mut i: usize = 0;
        while i < self.gates.len()
            invariant
                i <= self.gates@.len(),
                r@.len() == i,
                forall|j: int| 0 <= j < i ==> #[trigger] r@[j] == j,
            decreases self.gates@.len() - i,
        {
            r.push(i);
            i += 1;
        }
        r
    }
}

/// Circuit DAG law: in a well-formed circuit every gate's referenced
/// predecessor ids are strictly smaller than its own id, and each
/// gate's id is its position.
pub proof fn lemma_circuit_dag(c: Circuit, i: int)
    requires
        c.wf(),
        0 <= i < c.gates@.len(),
    ensures
        c.gates@[i].id == i,
        c.gates@[i].left matches Some(l) ==> l < i,
        c.gates@[i].right matches Some(r) ==> r < i,
{
    assert(gate_shape_ok(c.gates@[i], i));
}

/// The input wire ids of an owner are strictly increasing (in particular,
/// pairwise distinct), and each is a valid gate position.
pub proof fn lemma_input_wire_ids_increasing(gates: Seq<Gate>, owner: usize)
    requires
        forall|i: int| 0 <= i < gates.len() ==> gate_shape_ok(#[trigger] gates[i], i),
    ensures
        forall|a: int, b: int|
            0 <= a < b < input_wire_ids(gates, owner).len() ==> input_wire_ids(gates, owner)[a]
                < input_wire_ids(gates, owner)[b],
        forall|a: int|
            0 <= a < input_wire_ids(gates, owner).len() ==> #[trigger] input_wire_ids(gates, owner)[a]
                < gates.len(),
    decreases gates.len(),
{
    let ids = input_wire_ids(gates, owner);
    if gates.len() > 0 {
        let init = input_wire_ids(gates.drop_last(), owner);
        assert(forall|i: int|
            0 <= i < gates.drop_last().len() ==> gate_shape_ok(#[trigger] gates.drop_last()[i], i));
        lemma_input_wire_ids_increasing(gates.drop_last(), owner);
        assert(gate_shape_ok(gates.last(), gates.len() - 1));
        if gates.last().gate_type matches GateType::Input { owner: o } && o == owner {
            assert(ids == init.push(gates.last().id));
            assert forall|a: int| 0 <= a < ids.len() implies #[trigger] ids[a] < gates.len() by {
                if a < ids.len() - 1 {
                    assert(ids[a] == init[a]);
                    assert(init[a] < gates.drop_last().len());
                } else {
                    assert(ids[a] == gates.last().id);
                }
            }
            assert forall|a: int, b: int| 0 <= a < b < ids.len() implies ids[a] < ids[b] by {
                assert(ids[a] == init[a]);
                assert(init[a] < gates.drop_last().len());
                if b < ids.len() - 1 {
                    assert(ids[b] == init[b]);
                } else {
                    assert(ids[b] == gates.last().id);
                }
            }
        } else {
            assert(ids == init);
            assert(forall|a: int|
                0 <= a < ids.len() ==> #[trigger] ids[a] < gates.drop_last().len());
        }
    }
}

} // verus!
