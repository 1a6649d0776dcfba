//! The per-party protocol engine.
//!
//! A `Party` owns one Shamir share per wire it has computed; every share it
//! ever stores sits at its own x-coordinate `id + 1`. The engine is a state
//! machine: each step consumes plain values (received shares) and yields the
//! messages to send, so an outer driver owning the transport can run the
//! three phases — input distribution, gate-by-gate evaluation with
//! interactive degree reduction at `Mul` gates, and output reconstruction.

use vstd::prelude::*;
use crate::circuit::{
    gate_shape_ok, input_wire_ids, lemma_input_wire_ids_increasing, Circuit, Gate, GateType,
};
use crate::field::{
    lemma_val_injective, p, scalar_add, scalar_from_u64, scalar_inv, scalar_mul, scalar_zero,
    Scalar,
};
use crate::message::Message;
use crate::sharing::{
    lag_den_k, lagrange_at_zero, lemma_inv_p_unique, inv_p, poly_eval, poly_wf, shamir_reconstruct,
    shamir_share, share_xs, share_ys, shares_wf, Share,
};
use crate::MpcError;

verus! {

/// Running sum mod p of the first `k` entries.
pub open spec fn sum_mod_k(ys: Seq<int>, k: int) -> int
    decreases k,
{
    if k <= 0 {
        0
    } else {
        (sum_mod_k(ys, k - 1) + ys[k - 1]) % p()
    }
}

/// Sum mod p of all entries.
pub open spec fn sum_mod(ys: Seq<int>) -> int {
    sum_mod_k(ys, ys.len() as int)
}

/// First-match lookup of the cleartext value supplied for a wire.
pub open spec fn lookup_input(inputs: Seq<(usize, Scalar)>, w: usize) -> Option<Scalar>
    decreases inputs.len(),
{
    if inputs.len() == 0 {
        None
    } else if inputs[0].0 == w {
        Some(inputs[0].1)
    } else {
        lookup_input(inputs.subrange(1, inputs.len() as int), w)
    }
}

/// A value looked up among well-formed inputs is well formed.
pub proof fn lemma_lookup_input_wf(inputs: Seq<(usize, Scalar)>, w: usize)
    requires
        forall|i: int| 0 <= i < inputs.len() ==> (#[trigger] inputs[i]).1.wf(),
    ensures
        lookup_input(inputs, w) matches Some(v) ==> v.wf(),
    decreases inputs.len(),
{
    if inputs.len() > 0 && inputs[0].0 != w {
        let rest = inputs.subrange(1, inputs.len() as int);
        assert(forall|i: int| 0 <= i < rest.len() ==> (#[trigger] rest[i]).1.wf());
        lemma_lookup_input_wf(rest, w);
    }
}

/// One shared input wire, fully described: the share kept at this party's
/// own x-coordinate and the messages for the other parties all lie on one
/// well-formed degree-t polynomial whose constant term is the secret.
pub open spec fn shared_wire_ok(
    shares_after: Seq<Option<Share>>,
    w: usize,
    secret: int,
    msgs: Seq<(usize, Message)>,
    id: int,
    n: int,
    t: int,
) -> bool {
    &&& msgs.len() == n - 1
    &&& forall|m: int|
        0 <= m < msgs.len() ==> (#[trigger] msgs[m]).0 == (if m < id {
            m
        } else {
            m + 1
        })
    &&& exists|coeffs: Seq<int>|
        #[trigger] poly_wf(coeffs, secret, t)
        && (shares_after[w as int] matches Some(s) && s.x.val() == id + 1 && s.value.val()
            == poly_eval(coeffs, id + 1))
        && (forall|m: int|
            0 <= m < msgs.len() ==> ((#[trigger] msgs[m]).1 matches Message::InputShare(w2, sh)
                && w2 == w && sh.wf() && sh.x.val() == msgs[m].0 + 1
                && sh.value.val() == poly_eval(coeffs, msgs[m].0 + 1)))
}

/// `shared_wire_ok` only reads the share stored for its own wire, so it
/// survives writes to other wires.
pub proof fn lemma_shared_wire_ok_stable(
    before: Seq<Option<Share>>,
    after: Seq<Option<Share>>,
    w: usize,
    secret: int,
    msgs: Seq<(usize, Message)>,
    id: int,
    n: int,
    t: int,
)
    requires
        shared_wire_ok(before, w, secret, msgs, id, n, t),
        0 <= w < before.len(),
        before.len() == after.len(),
        after[w as int] == before[w as int],
    ensures
        shared_wire_ok(after, w, secret, msgs, id, n, t),
{
    let coeffs = choose|coeffs: Seq<int>|
        #[trigger] poly_wf(coeffs, secret, t)
        && (before[w as int] matches Some(s) && s.x.val() == id + 1 && s.value.val()
            == poly_eval(coeffs, id + 1))
        && (forall|m: int|
            0 <= m < msgs.len() ==> ((#[trigger] msgs[m]).1 matches Message::InputShare(w2, sh)
                && w2 == w && sh.wf() && sh.x.val() == msgs[m].0 + 1
                && sh.value.val() == poly_eval(coeffs, msgs[m].0 + 1)));
    assert(poly_wf(coeffs, secret, t));
}

/// The stored share of a gate is consistent with its predecessors' stored
/// shares, for those kinds a party evaluates without communication.
/// (`Input` and `Mul` shares come from the network, so only their presence
/// is a local matter.)
pub open spec fn local_gate_ok(g: Gate, shares: Seq<Option<Share>>) -> bool {
    match g.gate_type {
        GateType::Input { owner: _ } => shares[g.id as int] is Some,
        GateType::Add => g.left matches Some(a) && g.right matches Some(b)
            && shares[a as int] matches Some(sa) && shares[b as int] matches Some(sb)
            && shares[g.id as int] matches Some(so)
            && so.value.val() == (sa.value.val() + sb.value.val()) % p(),
        GateType::ConstMul(c) => g.left matches Some(a) && shares[a as int] matches Some(sa)
            && shares[g.id as int] matches Some(so)
            && so.value.val() == (sa.value.val() * c.val()) % p(),
        GateType::Mul => shares[g.id as int] is Some,
        GateType::Output => g.left matches Some(a) && shares[a as int] is Some
            && shares[g.id as int] == shares[a as int],
    }
}

/// A gate the evaluation loop cannot pass by itself: a `Mul` gate (it needs
/// an interactive round) or an `Input` gate whose share never arrived.
pub open spec fn eval_blocker(c: Circuit, shares: Seq<Option<Share>>, i: int) -> bool {
    c.gates@[i].gate_type is Mul || (c.gates@[i].gate_type matches GateType::Input { owner: _ }
        && shares[i] is None)
}

/// A blocking `Input` gate: its share is missing, which is fatal.
pub open spec fn missing_input_at(c: Circuit, shares: Seq<Option<Share>>, i: int) -> bool {
    c.gates@[i].gate_type matches GateType::Input { owner: _ } && shares[i] is None
}

/// What one call of the evaluation loop came to: either every gate is
/// evaluated, or it stopped at a `Mul` gate and degree reduction must run.
pub enum EvalOutcome {
    /// All gates up to the end of the circuit hold shares.
    Finished,
    /// Evaluation stopped at `Mul` gate `gate`; `round` already holds this
    /// party's local degree-2t product share, and `outgoing` broadcasts it.
    AwaitMul { gate: usize, round: ShareCollector, outgoing: Vec<(usize, Message)> },
}

/// First-match lookup of the value supplied for wire `w`.
fn find_input(inputs: &Vec<(usize, Scalar)>, w: usize) -> (r: Option<Scalar>)
    ensures
        r == lookup_input(inputs@, w),
{
    let mut i: usize = 0;
    proof {
        assert(inputs@.subrange(0, inputs@.len() as int) =~= inputs@);
    }
    while i < inputs.len()
        invariant
            i <= inputs@.len(),
            lookup_input(inputs@, w) == lookup_input(inputs@.subrange(i as int, inputs@.len() as int), w),
            forall|j: int| 0 <= j < i ==> (#[trigger] inputs@[j]).0 != w,
        decreases inputs@.len() - i,
    {
        proof {
            let rest = inputs@.subrange(i as int, inputs@.len() as int);
            assert(rest[0] == inputs@[i as int]);
            assert(rest.subrange(1, rest.len() as int) =~= inputs@.subrange(
                i + 1,
                inputs@.len() as int,
            ));
        }
        if inputs[i].0 == w {
            return Some(inputs[i].1);
        }
        i += 1;
    }
    proof {
        assert(inputs@.subrange(inputs@.len() as int, inputs@.len() as int) =~= Seq::<(usize, Scalar)>::empty());
    }
    None
}

/// A party of the protocol: its identity, the protocol parameters, and the
/// per-wire share store (one entry per gate of the circuit).
pub struct Party {
    pub id: usize,
    pub n: usize,
    pub t: usize,
    pub wire_shares: Vec<Option<Share>>,
}

/// The protocol configuration and store size of two party states agree.
pub open spec fn same_config(a: Party, b: Party) -> bool {
    a.id == b.id && a.n == b.n && a.t == b.t && a.wire_shares@.len() == b.wire_shares@.len()
}

impl Party {
    /// Every stored share is well formed and sits at this party's own
    /// x-coordinate `id + 1`.
    pub open spec fn shares_ok(self) -> bool {
        forall|w: int|
            0 <= w < self.wire_shares@.len() ==> ((#[trigger] self.wire_shares@[w]) matches Some(s)
                ==> s.wf() && s.x.val() == self.id + 1)
    }

    /// A valid party state: the id is one of the `n` parties, the threshold
    /// admits an honest majority (`2t + 1 <= n`), and all shares are its own.
    pub open spec fn wf(self) -> bool {
        &&& self.id < self.n
        &&& 2 * self.t + 1 <= self.n
        &&& self.shares_ok()
    }

    /// A fresh party with an empty share store sized for `n_wires` wires.
    pub fn new(id: usize, n: usize, t: usize, n_wires: usize) -> (r: Party)
        requires
            id < n,
            2 * (t as int) + 1 <= n,
        ensures
            r.wf(),
            r.id == id && r.n == n && r.t == t,
            r.wire_shares@.len() == n_wires,
            forall|w: int| 0 <= w < n_wires ==> #[trigger] r.wire_shares@[w] is None,
    {
        let mut wire_shares: Vec<Option<Share>> = Vec::new();
        let mut i: usize = 0;
        while i < n_wires
            invariant
                i <= n_wires,
                wire_shares@.len() == i,
                forall|w: int| 0 <= w < i ==> #[trigger] wire_shares@[w] is None,
            decreases n_wires - i,
        {
            wire_shares.push(None);
            i += 1;
        }
        Party { id, n, t, wire_shares }
    }

    /// This party's own x-coordinate, `id + 1` as a field element.
    pub fn own_x(&self) -> (r: Scalar)
        requires
            self.wf(),
        ensures
            r.wf(),
            r.val() == self.id + 1,
    {
        scalar_from_u64((self.id as u64) + 1)
    }

    /// The share stored for a wire, if any.
    pub fn share_at(&self, w: usize) -> (r: Option<Share>)
        requires
            w < self.wire_shares@.len(),
        ensures
            r == self.wire_shares@[w as int],
    {
        self.wire_shares[w]
    }

    /// Local addition gate: the output share is the pointwise sum of the two
    /// operand shares at this party's x-coordinate. No communication.
    pub fn eval_add(&mut self, out: usize, a: usize, b: usize) -> (r: Result<(), MpcError>)
        requires
            old(self).wf(),
            out < old(self).wire_shares@.len(),
            a < old(self).wire_shares@.len(),
            b < old(self).wire_shares@.len(),
        ensures
            final(self).wf(),
            same_config(*old(self), *final(self)),
            r is Ok <==> old(self).wire_shares@[a as int] is Some && old(self).wire_shares@[b as int] is Some,
            r is Err ==> r == Err::<(), MpcError>(MpcError::InvalidCircuit) && *final(self) == *old(self),
            r is Ok ==> {
                &&& final(self).wire_shares@[out as int] matches Some(so)
                    && so.x.val() == old(self).id + 1
                    && so.value.val() == (old(self).wire_shares@[a as int]->Some_0.value.val()
                        + old(self).wire_shares@[b as int]->Some_0.value.val()) % p()
                &&& forall|w: int|
                    0 <= w < old(self).wire_shares@.len() && w != out
                        ==> final(self).wire_shares@[w] == old(self).wire_shares@[w]
            },
    {
        match (self.wire_shares[a], self.wire_shares[b]) {
            (Some(sa), Some(sb)) => {
                let value = scalar_add(&sa.value, &sb.value);
                self.wire_shares.set(out, Some(Share { x: sa.x, value }));
                Ok(())
            },
            _ => Err(MpcError::InvalidCircuit),
        }
    }

    /// Local constant-multiplication gate: the operand share's value is
    /// multiplied by the public constant. No communication.
    pub fn eval_const_mul(&mut self, out: usize, a: usize, c: &Scalar) -> (r: Result<(), MpcError>)
        requires
            old(self).wf(),
            out < old(self).wire_shares@.len(),
            a < old(self).wire_shares@.len(),
            c.wf(),
        ensures
            final(self).wf(),
            same_config(*old(self), *final(self)),
            r is Ok <==> old(self).wire_shares@[a as int] is Some,
            r is Err ==> r == Err::<(), MpcError>(MpcError::InvalidCircuit) && *final(self) == *old(self),
            r is Ok ==> {
                &&& final(self).wire_shares@[out as int] matches Some(so)
                    && so.x.val() == old(self).id + 1
                    && so.value.val() == (old(self).wire_shares@[a as int]->Some_0.value.val() * c.val()) % p()
                &&& forall|w: int|
                    0 <= w < old(self).wire_shares@.len() && w != out
                        ==> final(self).wire_shares@[w] == old(self).wire_shares@[w]
            },
    {
        match self.wire_shares[a] {
            Some(sa) => {
                let value = scalar_mul(&sa.value, c);
                self.wire_shares.set(out, Some(Share { x: sa.x, value }));
                Ok(())
            },
            None => Err(MpcError::InvalidCircuit),
        }
    }

    /// Output gate: the upstream share is propagated unchanged; the actual
    /// reconstruction happens in the output phase.
    pub fn eval_output(&mut self, out: usize, a: usize) -> (r: Result<(), MpcError>)
        requires
            old(self).wf(),
            out < old(self).wire_shares@.len(),
            a < old(self).wire_shares@.len(),
        ensures
            final(self).wf(),
            same_config(*old(self), *final(self)),
            r is Ok <==> old(self).wire_shares@[a as int] is Some,
            r is Err ==> r == Err::<(), MpcError>(MpcError::InvalidCircuit) && *final(self) == *old(self),
            r is Ok ==> final(self).wire_shares@ == old(self).wire_shares@.update(
                out as int,
                old(self).wire_shares@[a as int],
            ),
    {
        match self.wire_shares[a] {
            Some(sa) => {
                self.wire_shares.set(out, Some(sa));
                Ok(())
            },
            None => Err(MpcError::InvalidCircuit),
        }
    }

    /// First step of degree reduction at a `Mul` gate: the pointwise product
    /// of the two operand shares, a share on a degree-2t polynomial whose
    /// constant term is the product of the two secrets.
    pub fn mul_local_product(&self, a: usize, b: usize) -> (r: Result<Share, MpcError>)
        requires
            self.wf(),
            a < self.wire_shares@.len(),
            b < self.wire_shares@.len(),
        ensures
            r is Ok <==> self.wire_shares@[a as int] is Some && self.wire_shares@[b as int] is Some,
            r is Err ==> r == Err::<Share, MpcError>(MpcError::InvalidCircuit),
            r matches Ok(sh) ==> sh.wf() && sh.x.val() == self.id + 1
                && sh.value.val() == (self.wire_shares@[a as int]->Some_0.value.val()
                    * self.wire_shares@[b as int]->Some_0.value.val()) % p(),
    {
        match (self.wire_shares[a], self.wire_shares[b]) {
            (Some(sa), Some(sb)) => {
                let value = scalar_mul(&sa.value, &sb.value);
                Ok(Share { x: sa.x, value })
            },
            _ => Err(MpcError::InvalidCircuit),
        }
    }

    /// Opens the product at a `Mul` gate and reshares it at degree t.
    ///
    /// Interpolates the collected degree-2t product shares at zero — at this
    /// moment the product value is learnt in the clear, a deliberate
    /// simplification over textbook BGW degree reduction, acceptable only
    /// when the threat model permits intermediate-value disclosure — and
    /// splits it into a fresh degree-t sharing, one share per party.
    pub fn eval_mul_open(&self, round: &ShareCollector) -> (r: Result<(Scalar, Vec<Share>), MpcError>)
        requires
            self.wf(),
            round.wf(),
            round.shares@.len() >= 2 * self.t + 1,
        ensures
            r is Err <==> exists|i: int|
                0 <= i < round.shares@.len() && #[trigger] lag_den_k(
                    share_xs(round.shares@),
                    i,
                    round.shares@.len() as int,
                ) == 0,
            r is Err ==> r == Err::<(Scalar, Vec<Share>), MpcError>(MpcError::DuplicateX),
            r matches Ok((prod, reshares)) ==> {
                &&& prod.wf()
                &&& prod.val() == lagrange_at_zero(share_xs(round.shares@), share_ys(round.shares@))
                &&& reshares@.len() == self.n
                &&& shares_wf(reshares@)
                &&& forall|i: int| 0 <= i < self.n ==> (#[trigger] reshares@[i]).x.val() == i + 1
                &&& exists|coeffs: Seq<int>|
                    #[trigger] poly_wf(coeffs, prod.val(), self.t as int)
                    && forall|i: int|
                        0 <= i < self.n ==> (#[trigger] reshares@[i]).value.val() == poly_eval(coeffs, i + 1)
            },
    {
        let prod = match shamir_reconstruct(round.shares.as_slice()) {
            Ok(v) => v,
            Err(e) => {
                return Err(e);
            },
        };
        let reshares = shamir_share(prod, self.t, self.n);
        Ok((prod, reshares))
    }

    /// Final step of degree reduction: given one fresh degree-t reshare from
    /// every party — all at this party's own x-coordinate — the wire's share
    /// becomes their average, `(sum of values) * n^{-1}` mod p.
    ///
    /// Fails with `ProtocolTimeout` when fewer (or more) than `n` reshares
    /// arrived, and with `InconsistentX` when one sits at a foreign
    /// x-coordinate.
    pub fn eval_mul_finish(&mut self, out: usize, collected: &Vec<Share>) -> (r: Result<(), MpcError>)
        requires
            old(self).wf(),
            out < old(self).wire_shares@.len(),
            shares_wf(collected@),
        ensures
            final(self).wf(),
            same_config(*old(self), *final(self)),
            r is Err ==> *final(self) == *old(self),
            r is Ok <==> collected@.len() == old(self).n && (forall|i: int|
                0 <= i < collected@.len() ==> (#[trigger] collected@[i]).x.val() == old(self).id + 1),
            collected@.len() != old(self).n ==> r == Err::<(), MpcError>(MpcError::ProtocolTimeout),
            r is Err && collected@.len() == old(self).n ==> r == Err::<(), MpcError>(
                MpcError::InconsistentX,
            ),
            r is Ok ==> {
                &&& final(self).wire_shares@[out as int] matches Some(so)
                    && so.x.val() == old(self).id + 1
                    && so.value.val() == (sum_mod(share_ys(collected@)) * inv_p(old(self).n as int)) % p()
                &&& forall|w: int|
                    0 <= w < old(self).wire_shares@.len() && w != out
                        ==> final(self).wire_shares@[w] == old(self).wire_shares@[w]
            },
    {
        if collected.len() != self.n {
            return Err(MpcError::ProtocolTimeout);
        }
        let my_x = self.own_x();
        let ghost ys = share_ys(collected@);
        let mut sum = scalar_zero();
        let mut i: usize = 0;
        while i < collected.len()
            invariant
                self.wf(),
                shares_wf(collected@),
                my_x.wf(),
                my_x.val() == self.id + 1,
                ys == share_ys(collected@),
                collected@.len() == self.n,
                i <= collected@.len(),
                sum.wf(),
                sum.val() == sum_mod_k(ys, i as int),
                forall|j: int| 0 <= j < i ==> (#[trigger] collected@[j]).x.val() == self.id + 1,
            decreases collected@.len() - i,
        {
            let s = collected[i];
            if !(s.x == my_x) {
                proof {
                    if s.x.val() == my_x.val() {
                        lemma_val_injective(s.x, my_x);
                    }
                }
                return Err(MpcError::InconsistentX);
            }
            sum = scalar_add(&sum, &s.value);
            i += 1;
        }
        let n_scalar = scalar_from_u64(self.n as u64);
        let n_inv = scalar_inv(&n_scalar);
        proof {
            lemma_inv_p_unique(self.n as int, n_inv.val());
        }
        let value = scalar_mul(&sum, &n_inv);
        self.wire_shares.set(out, Some(Share { x: my_x, value }));
        Ok(())
    }

    /// Shares one owned input value: splits it with a fresh degree-t
    /// polynomial, keeps the share at this party's own x-coordinate, and
    /// returns one `InputShare` message per other party, in increasing peer
    /// order, each carrying the share at that peer's x-coordinate.
    fn share_one_input(&mut self, w: usize, v: Scalar) -> (msgs: Vec<(usize, Message)>)
        requires
            old(self).wf(),
            w < old(self).wire_shares@.len(),
            v.wf(),
        ensures
            final(self).wf(),
            same_config(*old(self), *final(self)),
            forall|w2: int|
                0 <= w2 < old(self).wire_shares@.len() && w2 != w
                    ==> final(self).wire_shares@[w2] == old(self).wire_shares@[w2],
            shared_wire_ok(
                final(self).wire_shares@,
                w,
                v.val(),
                msgs@,
                old(self).id as int,
                old(self).n as int,
                old(self).t as int,
            ),
    {
        let shares = shamir_share(v, self.t, self.n);
        let ghost coeffs: Seq<int> = choose|c: Seq<int>|
            #[trigger] poly_wf(c, v.val(), self.t as int) && forall|i: int|
                0 <= i < self.n ==> (#[trigger] shares@[i]).value.val() == poly_eval(c, i + 1);
        self.wire_shares.set(w, Some(shares[self.id]));
        let mut msgs: Vec<(usize, Message)> = Vec::new();
        let mut peer: usize = 0;
        while peer < self.n
            invariant
                self.wf(),
                peer <= self.n,
                w < self.wire_shares@.len(),
                shares@.len() == self.n,
                shares_wf(shares@),
                forall|i: int| 0 <= i < self.n ==> (#[trigger] shares@[i]).x.val() == i + 1,
                forall|i: int|
                    0 <= i < self.n ==> (#[trigger] shares@[i]).value.val() == poly_eval(coeffs, i + 1),
                msgs@.len() == (if peer <= self.id {
                    peer as int
                } else {
                    peer - 1
                }),
                forall|k: int|
                    0 <= k < msgs@.len() ==> (#[trigger] msgs@[k]).0 == (if k < self.id {
                        k
                    } else {
                        k + 1
                    }),
                forall|k: int|
                    0 <= k < msgs@.len() ==> (#[trigger] msgs@[k]).1 == Message::InputShare(
                        w,
                        shares@[if k < self.id {
                            k
                        } else {
                            k + 1
                        }],
                    ),
            decreases self.n - peer,
        {
            if peer != self.id {
                msgs.push((peer, Message::InputShare(w, shares[peer])));
            }
            peer += 1;
        }
        proof {
            assert(poly_wf(coeffs, v.val(), self.t as int));
        }
        msgs
    }

    /// Input phase, sending half: checks that a value was supplied for every
    /// input wire this party owns — otherwise `MissingInput` and no change —
    /// then shares each owned value, storing its own share and returning one
    /// message group per owned wire (in wire order) for the driver to send.
    pub fn input_phase(&mut self, circuit: &Circuit, inputs: &Vec<(usize, Scalar)>) -> (r: Result<
        Vec<Vec<(usize, Message)>>,
        MpcError,
    >)
        requires
            old(self).wf(),
            circuit.wf(),
            old(self).wire_shares@.len() == circuit.gates@.len(),
            forall|i: int| 0 <= i < inputs@.len() ==> (#[trigger] inputs@[i]).1.wf(),
        ensures
            final(self).wf(),
            same_config(*old(self), *final(self)),
            r is Err <==> exists|k: int|
                0 <= k < input_wire_ids(circuit.gates@, old(self).id).len() && lookup_input(
                    inputs@,
                    #[trigger] input_wire_ids(circuit.gates@, old(self).id)[k],
                ) is None,
            r is Err ==> r == Err::<Vec<Vec<(usize, Message)>>, MpcError>(MpcError::MissingInput)
                && *final(self) == *old(self),
            r matches Ok(groups) ==> {
                let wires = input_wire_ids(circuit.gates@, old(self).id);
                &&& groups@.len() == wires.len()
                &&& forall|w2: int|
                    0 <= w2 < old(self).wire_shares@.len() && !wires.contains(w2 as usize)
                        ==> final(self).wire_shares@[w2] == old(self).wire_shares@[w2]
                &&& forall|k: int|
                    0 <= k < wires.len() ==> shared_wire_ok(
                        final(self).wire_shares@,
                        #[trigger] wires[k],
                        lookup_input(inputs@, wires[k])->Some_0.val(),
                        groups@[k]@,
                        old(self).id as int,
                        old(self).n as int,
                        old(self).t as int,
                    )
            },
    {
        proof {
            lemma_input_wire_ids_increasing(circuit.gates@, self.id);
        }
        let wires = circuit.input_wires_by_owner(self.id);
        let mut k: usize = 0;
        while k < wires.len()
            invariant
                *self == *old(self),
                old(self).wf(),
                k <= wires@.len(),
                wires@ == input_wire_ids(circuit.gates@, old(self).id),
                forall|j: int| 0 <= j < k ==> lookup_input(inputs@, #[trigger] wires@[j]) is Some,
            decreases wires@.len() - k,
        {
            if find_input(inputs, wires[k]).is_none() {
                return Err(MpcError::MissingInput);
            }
            k += 1;
        }
        let ghost wires0 = wires@;
        let ghost self0 = *self;
        let mut groups: Vec<Vec<(usize, Message)>> = Vec::new();
        let mut k: usize = 0;
        while k < wires.len()
            invariant
                self.wf(),
                same_config(self0, *self),
                circuit.wf(),
                self.id == self0.id && self.n == self0.n && self.t == self0.t,
                self.wire_shares@.len() == circuit.gates@.len(),
                wires@ == wires0,
                wires0 == input_wire_ids(circuit.gates@, self0.id),
                forall|i: int| 0 <= i < inputs@.len() ==> (#[trigger] inputs@[i]).1.wf(),
                forall|j: int|
                    0 <= j < wires0.len() ==> lookup_input(inputs@, #[trigger] wires0[j]) is Some,
                forall|a: int, b: int| 0 <= a < b < wires0.len() ==> wires0[a] < wires0[b],
                forall|a: int| 0 <= a < wires0.len() ==> #[trigger] wires0[a] < circuit.gates@.len(),
                k <= wires0.len(),
                groups@.len() == k,
                forall|w2: int|
                    0 <= w2 < self0.wire_shares@.len() && !wires0.subrange(0, k as int).contains(
                        w2 as usize,
                    ) ==> self.wire_shares@[w2] == self0.wire_shares@[w2],
                forall|j: int|
                    0 <= j < k ==> shared_wire_ok(
                        self.wire_shares@,
                        #[trigger] wires0[j],
                        lookup_input(inputs@, wires0[j])->Some_0.val(),
                        groups@[j]@,
                        self0.id as int,
                        self0.n as int,
                        self0.t as int,
                    ),
            decreases wires0.len() - k,
        {
            let w = wires[k];
            let v = find_input(inputs, w).unwrap();
            proof {
                lemma_lookup_input_wf(inputs@, w);
            }
            let ghost pre = *self;
            let msgs = self.share_one_input(w, v);
            groups.push(msgs);
            proof {
                assert forall|w2: int|
                    0 <= w2 < self0.wire_shares@.len() && !wires0.subrange(0, k + 1).contains(
                        w2 as usize,
                    ) implies self.wire_shares@[w2] == self0.wire_shares@[w2] by {
                    assert(wires0.subrange(0, k + 1).drop_last() =~= wires0.subrange(0, k as int));
                    if wires0.subrange(0, k as int).contains(w2 as usize) {
                        let idx = choose|idx: int|
                            0 <= idx < k && wires0.subrange(0, k as int)[idx] == w2 as usize;
                        assert(wires0.subrange(0, k + 1)[idx] == w2 as usize);
                        assert(false);
                    }
                    if w2 == w {
                        assert(wires0.subrange(0, k + 1)[k as int] == w2 as usize);
                        assert(false);
                    }
                }
                assert forall|j: int| 0 <= j < k + 1 implies shared_wire_ok(
                    self.wire_shares@,
                    #[trigger] wires0[j],
                    lookup_input(inputs@, wires0[j])->Some_0.val(),
                    groups@[j]@,
                    self0.id as int,
                    self0.n as int,
                    self0.t as int,
                ) by {
                    if j < k {
                        assert(groups@[j] == groups@.drop_last()[j]);
                        assert(wires0[j] < wires0[k as int]);
                        assert(self.wire_shares@[wires0[j] as int] == pre.wire_shares@[wires0[j] as int]);
                        lemma_shared_wire_ok_stable(
                            pre.wire_shares@,
                            self.wire_shares@,
                            wires0[j],
                            lookup_input(inputs@, wires0[j])->Some_0.val(),
                            groups@[j]@,
                            self0.id as int,
                            self0.n as int,
                            self0.t as int,
                        );
                    } else {
                        assert(groups@[j] == groups@.last());
                        assert(lookup_input(inputs@, w)->Some_0 == v);
                    }
                }
            }
            k += 1;
        }
        proof {
            assert(wires0.subrange(0, wires0.len() as int) =~= wires0);
        }
        Ok(groups)
    }

    /// Input phase, receiving half: stores a received `InputShare`. The
    /// share must name a wire of the circuit and sit at this party's own
    /// x-coordinate, else it is rejected and nothing changes.
    pub fn absorb_input_share(&mut self, wire: usize, s: Share) -> (r: Result<(), MpcError>)
        requires
            old(self).wf(),
            s.wf(),
        ensures
            final(self).wf(),
            same_config(*old(self), *final(self)),
            r is Ok <==> (wire as int) < old(self).wire_shares@.len() && s.x.val() == old(self).id
                + 1,
            r is Ok ==> final(self).wire_shares@ == old(self).wire_shares@.update(
                wire as int,
                Some(s),
            ),
            r is Err ==> *final(self) == *old(self),
            (wire as int) >= old(self).wire_shares@.len() ==> r == Err::<(), MpcError>(
                MpcError::InvalidCircuit,
            ),
            (wire as int) < old(self).wire_shares@.len() && s.x.val() != old(self).id + 1 ==> r
                == Err::<(), MpcError>(MpcError::InconsistentX),
    {
        if wire >= self.wire_shares.len() {
            return Err(MpcError::InvalidCircuit);
        }
        let my_x = self.own_x();
        if !(s.x == my_x) {
            proof {
                if s.x.val() == my_x.val() {
                    lemma_val_injective(s.x, my_x);
                }
            }
            return Err(MpcError::InconsistentX);
        }
        self.wire_shares.set(wire, Some(s));
        Ok(())
    }

    /// Whether a share has arrived for every `Input` wire of the circuit,
    /// owned or not — the condition for leaving the input phase.
    pub fn input_complete(&self, circuit: &Circuit) -> (r: bool)
        requires
            self.wf(),
            circuit.wf(),
            self.wire_shares@.len() == circuit.gates@.len(),
        ensures
            r <==> forall|i: int|
                0 <= i < circuit.gates@.len() ==> !missing_input_at(*circuit, self.wire_shares@, i),
    {
        let mut i: usize = 0;
        while i < circuit.gates.len()
            invariant
                self.wire_shares@.len() == circuit.gates@.len(),
                i <= circuit.gates@.len(),
                forall|j: int| 0 <= j < i ==> !missing_input_at(*circuit, self.wire_shares@, j),
            decreases circuit.gates@.len() - i,
        {
            let gate = circuit.gates[i];
            match gate.gate_type {
                GateType::Input { owner: _ } => {
                    if self.share_at(i).is_none() {
                        proof {
                            assert(missing_input_at(*circuit, self.wire_shares@, i as int));
                        }
                        return false;
                    }
                },
                _ => {},
            }
            i += 1;
        }
        true
    }

    /// Evaluation phase driver: walks the gates from `start` in topological
    /// (insertion) order, evaluating local gates, until it either finishes
    /// the circuit or stops at a `Mul` gate, whose interactive degree
    /// reduction the caller must run before resuming at the next gate. A
    /// missing `Input` share is fatal.
    pub fn evaluate_circuit(&mut self, circuit: &Circuit, start: usize) -> (r: Result<
        EvalOutcome,
        MpcError,
    >)
        requires
            old(self).wf(),
            circuit.wf(),
            old(self).wire_shares@.len() == circuit.gates@.len(),
            start <= circuit.gates@.len(),
            forall|i: int| 0 <= i < start ==> #[trigger] old(self).wire_shares@[i] is Some,
        ensures
            final(self).wf(),
            same_config(*old(self), *final(self)),
            r is Err ==> r == Err::<EvalOutcome, MpcError>(MpcError::InvalidCircuit),
            r is Err <==> exists|i: int|
                start <= i < circuit.gates@.len() && #[trigger] missing_input_at(
                    *circuit,
                    old(self).wire_shares@,
                    i,
                ) && (forall|j: int|
                    start <= j < i ==> !eval_blocker(*circuit, old(self).wire_shares@, j)),
            r matches Ok(out) ==> match out {
                EvalOutcome::Finished => {
                    &&& forall|j: int|
                        start <= j < circuit.gates@.len() ==> !eval_blocker(
                            *circuit,
                            old(self).wire_shares@,
                            j,
                        )
                    &&& forall|i: int|
                        0 <= i < circuit.gates@.len() ==> #[trigger] final(self).wire_shares@[i] is Some
                    &&& forall|i: int|
                        start <= i < circuit.gates@.len() ==> local_gate_ok(
                            #[trigger] circuit.gates@[i],
                            final(self).wire_shares@,
                        )
                    &&& forall|i: int|
                        0 <= i < start ==> #[trigger] final(self).wire_shares@[i] == old(
                            self,
                        ).wire_shares@[i]
                },
                EvalOutcome::AwaitMul { gate, round, outgoing } => {
                    &&& start <= gate < circuit.gates@.len()
                    &&& circuit.gates@[gate as int].gate_type is Mul
                    &&& forall|j: int|
                        start <= j < gate ==> !eval_blocker(*circuit, old(self).wire_shares@, j)
                    &&& forall|i: int| 0 <= i < gate ==> #[trigger] final(self).wire_shares@[i] is Some
                    &&& forall|i: int|
                        start <= i < gate ==> local_gate_ok(
                            #[trigger] circuit.gates@[i],
                            final(self).wire_shares@,
                        )
                    &&& forall|i: int|
                        (0 <= i < start || gate <= i < circuit.gates@.len())
                            ==> #[trigger] final(self).wire_shares@[i] == old(self).wire_shares@[i]
                    &&& round.wire == gate
                    &&& round.wf()
                    &&& round.shares@.len() == 1
                    &&& round.shares@[0].x.val() == old(self).id + 1
                    &&& (circuit.gates@[gate as int].left matches Some(a)
                        && circuit.gates@[gate as int].right matches Some(b)
                        && final(self).wire_shares@[a as int] matches Some(sa)
                        && final(self).wire_shares@[b as int] matches Some(sb)
                        && round.shares@[0].value.val() == (sa.value.val() * sb.value.val()) % p())
                    &&& outgoing@.len() == old(self).n - 1
                    &&& forall|m: int|
                        0 <= m < outgoing@.len() ==> (#[trigger] outgoing@[m]).0 == (if m < old(
                            self,
                        ).id {
                            m
                        } else {
                            m + 1
                        })
                    &&& forall|m: int|
                        0 <= m < outgoing@.len() ==> (#[trigger] outgoing@[m]).1
                            == Message::MulShare(gate, round.shares@[0])
                },
            },
    {
        let len = circuit.gates.len();
        let mut g: usize = start;
        while g < len
            invariant
                self.wf(),
                circuit.wf(),
                same_config(*old(self), *self),
                self.id == old(self).id && self.n == old(self).n && self.t == old(self).t,
                self.wire_shares@.len() == circuit.gates@.len(),
                len == circuit.gates@.len(),
                start <= g <= len,
                forall|i: int| 0 <= i < g ==> #[trigger] self.wire_shares@[i] is Some,
                forall|i: int|
                    start <= i < g ==> local_gate_ok(#[trigger] circuit.gates@[i], self.wire_shares@),
                forall|i: int|
                    (0 <= i < start || g <= i < len) ==> #[trigger] self.wire_shares@[i] == old(
                        self,
                    ).wire_shares@[i],
                forall|j: int| start <= j < g ==> !eval_blocker(*circuit, old(self).wire_shares@, j),
            decreases len - g,
        {
            let gate = circuit.gates[g];
            proof {
                assert(gate_shape_ok(circuit.gates@[g as int], g as int));
            }
            let ghost pre = *self;
            match gate.gate_type {
                GateType::Input { owner: _ } => {
                    if self.share_at(g).is_none() {
                        proof {
                            assert(missing_input_at(*circuit, old(self).wire_shares@, g as int));
                        }
                        return Err(MpcError::InvalidCircuit);
                    }
                },
                GateType::Add => {
                    let a = gate.left.unwrap();
                    let b = gate.right.unwrap();
                    proof {
                        assert(self.wire_shares@[a as int] is Some);
                        assert(self.wire_shares@[b as int] is Some);
                    }
                    let res = self.eval_add(g, a, b);
                    proof {
                        assert(res is Ok);
                    }
                },
                GateType::ConstMul(c) => {
                    let a = gate.left.unwrap();
                    proof {
                        assert(self.wire_shares@[a as int] is Some);
                    }
                    let res = self.eval_const_mul(g, a, &c);
                    proof {
                        assert(res is Ok);
                    }
                },
                GateType::Mul => {
                    let a = gate.left.unwrap();
                    let b = gate.right.unwrap();
                    proof {
                        assert(self.wire_shares@[a as int] is Some);
                        assert(self.wire_shares@[b as int] is Some);
                    }
                    let lp = self.mul_local_product(a, b).unwrap();
                    let round = ShareCollector::new(g, lp);
                    let mut outgoing: Vec<(usize, Message)> = Vec::new();
                    let mut peer: usize = 0;
                    while peer < self.n
                        invariant
                            self.id < self.n,
                            peer <= self.n,
                            outgoing@.len() == (if peer <= self.id {
                                peer as int
                            } else {
                                peer - 1
                            }),
                            forall|m: int|
                                0 <= m < outgoing@.len() ==> (#[trigger] outgoing@[m]).0 == (if m
                                    < self.id {
                                    m
                                } else {
                                    m + 1
                                }),
                            forall|m: int|
                                0 <= m < outgoing@.len() ==> (#[trigger] outgoing@[m]).1
                                    == Message::MulShare(g, lp),
                        decreases self.n - peer,
                    {
                        if peer != self.id {
                            outgoing.push((peer, Message::MulShare(g, lp)));
                        }
                        peer += 1;
                    }
                    proof {
                        assert forall|i: int|
                            start <= i < len && #[trigger] missing_input_at(
                                *circuit,
                                old(self).wire_shares@,
                                i,
                            ) implies !(forall|j: int|
                            start <= j < i ==> !eval_blocker(*circuit, old(self).wire_shares@, j)) by {
                            if i < g {
                                assert(!eval_blocker(*circuit, old(self).wire_shares@, i));
                                assert(false);
                            } else if i == g {
                                assert(circuit.gates@[g as int].gate_type is Mul);
                                assert(false);
                            } else {
                                assert(eval_blocker(*circuit, old(self).wire_shares@, g as int));
                            }
                        }
                    }
                    return Ok(EvalOutcome::AwaitMul { gate: g, round, outgoing });
                },
                GateType::Output => {
                    let a = gate.left.unwrap();
                    proof {
                        assert(self.wire_shares@[a as int] is Some);
                    }
                    let res = self.eval_output(g, a);
                    proof {
                        assert(res is Ok);
                    }
                },
            }
            proof {
                assert forall|i: int| start <= i < g + 1 implies local_gate_ok(
                    #[trigger] circuit.gates@[i],
                    self.wire_shares@,
                ) by {
                    assert(gate_shape_ok(circuit.gates@[i], i));
                    if i < g {
                        assert(local_gate_ok(circuit.gates@[i], pre.wire_shares@));
                    }
                }
            }
            g += 1;
        }
        proof {
            assert forall|i: int| start <= i < len implies !missing_input_at(
                *circuit,
                old(self).wire_shares@,
                i,
            ) by {
                assert(!eval_blocker(*circuit, old(self).wire_shares@, i));
            }
        }
        Ok(EvalOutcome::Finished)
    }

    /// Output phase, sending half: for every output wire, one `OutputShare`
    /// message per other party and a collector seeded with this party's own
    /// share. Fails when an output wire was never evaluated.
    pub fn output_phase(&self, output_wires: &Vec<usize>) -> (r: Result<
        (Vec<Vec<(usize, Message)>>, Vec<ShareCollector>),
        MpcError,
    >)
        requires
            self.wf(),
        ensures
            r is Err <==> exists|k: int|
                0 <= k < output_wires@.len() && ((#[trigger] output_wires@[k]) as int
                    >= self.wire_shares@.len() || self.wire_shares@[output_wires@[k] as int] is None),
            r is Err ==> r == Err::<(Vec<Vec<(usize, Message)>>, Vec<ShareCollector>), MpcError>(
                MpcError::InvalidCircuit,
            ),
            r matches Ok((groups, cols)) ==> {
                &&& groups@.len() == output_wires@.len()
                &&& cols@.len() == output_wires@.len()
                &&& forall|k: int|
                    0 <= k < output_wires@.len() ==> {
                        let w = #[trigger] output_wires@[k];
                        &&& self.wire_shares@[w as int] matches Some(own)
                        &&& groups@[k]@.len() == self.n - 1
                        &&& (forall|m: int|
                            0 <= m < groups@[k]@.len() ==> (#[trigger] groups@[k]@[m]).0 == (if m
                                < self.id {
                                m
                            } else {
                                m + 1
                            }))
                        &&& (forall|m: int|
                            0 <= m < groups@[k]@.len() ==> (#[trigger] groups@[k]@[m]).1
                                == Message::OutputShare(w, self.wire_shares@[w as int]->Some_0))
                        &&& cols@[k].wire == w
                        &&& cols@[k].wf()
                        &&& cols@[k].shares@ == seq![self.wire_shares@[w as int]->Some_0]
                    }
            },
    {
        let mut groups: Vec<Vec<(usize, Message)>> = Vec::new();
        let mut cols: Vec<ShareCollector> = Vec::new();
        let mut k: usize = 0;
        while k < output_wires.len()
            invariant
                self.wf(),
                k <= output_wires@.len(),
                groups@.len() == k,
                cols@.len() == k,
                forall|j: int|
                    0 <= j < k ==> {
                        let w = #[trigger] output_wires@[j];
                        &&& (w as int) < self.wire_shares@.len()
                        &&& self.wire_shares@[w as int] matches Some(own)
                        &&& groups@[j]@.len() == self.n - 1
                        &&& (forall|m: int|
                            0 <= m < groups@[j]@.len() ==> (#[trigger] groups@[j]@[m]).0 == (if m
                                < self.id {
                                m
                            } else {
                                m + 1
                            }))
                        &&& (forall|m: int|
                            0 <= m < groups@[j]@.len() ==> (#[trigger] groups@[j]@[m]).1
                                == Message::OutputShare(w, self.wire_shares@[w as int]->Some_0))
                        &&& cols@[j].wire == w
                        &&& cols@[j].wf()
                        &&& cols@[j].shares@ == seq![self.wire_shares@[w as int]->Some_0]
                    },
            decreases output_wires@.len() - k,
        {
            let w = output_wires[k];
            if w >= self.wire_shares.len() {
                return Err(MpcError::InvalidCircuit);
            }
            let own = match self.share_at(w) {
                Some(s) => s,
                None => {
                    return Err(MpcError::InvalidCircuit);
                },
            };
            let mut msgs: Vec<(usize, Message)> = Vec::new();
            let mut peer: usize = 0;
            while peer < self.n
                invariant
                    self.id < self.n,
                    peer <= self.n,
                    msgs@.len() == (if peer <= self.id {
                        peer as int
                    } else {
                        peer - 1
                    }),
                    forall|m: int|
                        0 <= m < msgs@.len() ==> (#[trigger] msgs@[m]).0 == (if m < self.id {
                            m
                        } else {
                            m + 1
                        }),
                    forall|m: int|
                        0 <= m < msgs@.len() ==> (#[trigger] msgs@[m]).1 == Message::OutputShare(
                            w,
                            own,
                        ),
                decreases self.n - peer,
            {
                if peer != self.id {
                    msgs.push((peer, Message::OutputShare(w, own)));
                }
                peer += 1;
            }
            groups.push(msgs);
            cols.push(ShareCollector::new(w, own));
            k += 1;
        }
        Ok((groups, cols))
    }

    /// Reconstructs one output value from a collector holding at least
    /// `t + 1` distinct-x shares, by Lagrange interpolation at zero.
    pub fn reconstruct_output(&self, col: &ShareCollector) -> (r: Result<Scalar, MpcError>)
        requires
            self.wf(),
            col.wf(),
            col.shares@.len() >= self.t + 1,
        ensures
            r is Err <==> exists|i: int|
                0 <= i < col.shares@.len() && #[trigger] lag_den_k(
                    share_xs(col.shares@),
                    i,
                    col.shares@.len() as int,
                ) == 0,
            r is Err ==> r == Err::<Scalar, MpcError>(MpcError::DuplicateX),
            r matches Ok(v) ==> v.wf() && v.val() == lagrange_at_zero(
                share_xs(col.shares@),
                share_ys(col.shares@),
            ),
    {
        shamir_reconstruct(col.shares.as_slice())
    }
}

/// Collects shares of one wire during an interactive round (the broadcast
/// step of degree reduction, or the output phase), keeping at most one share
/// per x-coordinate.
pub struct ShareCollector {
    pub wire: usize,
    pub shares: Vec<Share>,
}

impl ShareCollector {
    /// All collected shares are well formed with pairwise distinct
    /// x-coordinates.
    pub open spec fn wf(self) -> bool {
        &&& shares_wf(self.shares@)
        &&& forall|i: int, j: int|
            0 <= i < j < self.shares@.len() ==> (#[trigger] self.shares@[i]).x.val()
                != (#[trigger] self.shares@[j]).x.val()
    }

    /// A collector for `wire`, seeded with this party's own share.
    pub fn new(wire: usize, own: Share) -> (r: ShareCollector)
        requires
            own.wf(),
        ensures
            r.wf(),
            r.wire == wire,
            r.shares@ == seq![own],
    {
        let mut shares: Vec<Share> = Vec::new();
        shares.push(own);
        proof {
            assert(shares@ =~= seq![own]);
        }
        ShareCollector { wire, shares }
    }

    /// How many distinct-x shares have been collected.
    pub fn count(&self) -> (r: usize)
        ensures
            r == self.shares@.len(),
    {
        self.shares.len()
    }

    /// Offers a received share: it is kept exactly when it is addressed to
    /// this collector's wire and carries a fresh x-coordinate; messages for
    /// other wires and duplicate x values are ignored.
    pub fn absorb(&mut self, wire: usize, s: Share)
        requires
            old(self).wf(),
            s.wf(),
        ensures
            final(self).wf(),
            final(self).wire == old(self).wire,
            final(self).shares@ == if old(self).wire == wire && (forall|i: int|
                0 <= i < old(self).shares@.len() ==> (#[trigger] old(self).shares@[i]).x.val()
                    != s.x.val()) {
                old(self).shares@.push(s)
            } else {
                old(self).shares@
            },
    {
        if wire != self.wire {
            return ;
        }
        let mut i: usize = 0;
        while i < self.shares.len()
            invariant
                self.wf(),
                s.wf(),
                i <= self.shares@.len(),
                forall|j: int|
                    0 <= j < i ==> (#[trigger] self.shares@[j]).x.val() != s.x.val(),
            decreases self.shares@.len() - i,
        {
            if self.shares[i].x == s.x {
                return ;
            }
            proof {
                if self.shares@[i as int].x.val() == s.x.val() {
                    lemma_val_injective(self.shares@[i as int].x, s.x);
                }
            }
            i += 1;
        }
        self.shares.push(s);
    }
}

} // verus!
