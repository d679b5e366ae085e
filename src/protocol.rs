//! The verifier: it checks each round of the sum-check, the claim at the
//! end of each layer and the line that carries two claims into one, and at
//! the bottom compares the last claim with the public inputs.
use vstd::prelude::*;
use rand::Rng;
use crate::circuit::{layer_values, ArithCircuit, Gate};
use crate::field::{fadd, add_mod};
use crate::mle::{all_reduced, into_bit_arr, label_bits, lemma_label_len, mle_eval};
use crate::poly::{interp_eval, interpolate, line_at, line_point};
use crate::prover::{claim_from, gate_claim, line_values, round_poly, sub_vec, Prover};

verus! {

/// The claim left after rounds `k..2n` of layer `i`'s session, or `None`
/// where a round polynomial does not sum to the claim before it.
pub open spec fn rounds_outcome(
    layers: Seq<Seq<Gate>>,
    i: int,
    n: nat,
    p: int,
    g: Seq<u64>,
    cs: Seq<u64>,
    k: nat,
    claim: int,
) -> Option<int>
    decreases 2 * n - k,
{
    if k >= 2 * n {
        Some(claim)
    } else {
        let m = round_poly(layers, i, n, p, g, cs.subrange(0, k as int));
        if fadd(m[0] as int, m[1] as int, p) != claim {
            None
        } else {
            rounds_outcome(layers, i, n, p, g, cs, k + 1, interp_eval(m, cs[k as int] as int, p))
        }
    }
}

/// One layer's session with the challenges `cs` (`2n` round challenges and
/// one on the line): the point and claim carried into layer `i + 1`, or
/// `None` where the verifier rejects.
pub open spec fn layer_outcome(
    layers: Seq<Seq<Gate>>,
    i: int,
    n: nat,
    p: int,
    g: Seq<u64>,
    claim: int,
    cs: Seq<u64>,
) -> Option<(Seq<u64>, int)> {
    match rounds_outcome(layers, i, n, p, g, cs, 0, claim) {
        None => None,
        Some(c) => {
            let r0 = cs.subrange(0, n as int);
            let r1 = cs.subrange(n as int, 2 * n as int);
            let below = layer_values(layers[i + 1]);
            let w0 = mle_eval(below, r0, n, p);
            let w1 = mle_eval(below, r1, n, p);
            let q = line_values(layers[i + 1], r0, r1, n, p);
            if c != gate_claim(layers, i, n, p, g, r0, r1, w0, w1) {
                None
            } else if interp_eval(q, 0, p) != w0 || interp_eval(q, 1, p) != w1 {
                None
            } else {
                Some((line_at(r0, r1, cs[2 * n as int] as int, p), interp_eval(q, cs[2 * n as int] as int, p)))
            }
        }
    }
}

/// Whether the verifier accepts from layer `i` on, with the claim that the
/// extension of layer `i` is `claim` at `g`.
pub open spec fn run_from(layers: Seq<Seq<Gate>>, n: nat, p: int, i: nat, g: Seq<u64>, claim: int, cs: Seq<u64>) -> bool
    decreases layers.len() - i,
{
    if i + 1 >= layers.len() {
        claim == mle_eval(layer_values(layers[i as int]), g, n, p)
    } else {
        match layer_outcome(layers, i as int, n, p, g, claim, cs.subrange(0, (2 * n + 1) as int)) {
            None => false,
            Some(next) => run_from(layers, n, p, i + 1, next.0, next.1, cs.subrange((2 * n + 1) as int, cs.len() as int)),
        }
    }
}

/// The number of challenges a run takes: `2n + 1` for each layer above the inputs.
pub open spec fn num_challenges(num_layers: nat, n: nat) -> nat {
    ((num_layers - 1) * (2 * n + 1)) as nat
}

/// Whether the protocol accepts the claim that output gate 0 holds its
/// stored value, with the honest prover and the challenges `cs`.
pub open spec fn protocol_accepts(layers: Seq<Seq<Gate>>, n: nat, p: int, cs: Seq<u64>) -> bool {
    let g = label_bits(0, n);
    run_from(layers, n, p, 0, g, mle_eval(layer_values(layers[0]), g, n, p), cs)
}

/// The verifier's state between sessions: the layer under test, the point
/// of the claim on it and the claimed value there.
pub struct Verifier {
    pub num_bits: usize,
    pub modulus: u64,
    pub layer: usize,
    pub point: Vec<u64>,
    pub claim: u64,
}

impl Verifier {
    pub open spec fn wf_for(&self, circ: &ArithCircuit) -> bool {
        &&& circ.wf()
        &&& self.num_bits == circ.num_bits
        &&& self.modulus == circ.modulus
        &&& self.layer < circ.layers().len()
        &&& self.point@.len() == self.num_bits
        &&& all_reduced(self.point@, self.modulus)
        &&& self.claim < self.modulus
    }

    /// A verifier at the output layer, holding the claim that the extension
    /// of the outputs at the label of gate 0 is what the circuit stores there.
    pub fn new(circ: &ArithCircuit) -> (r: Verifier)
        requires
            circ.wf(),
        ensures
            r.wf_for(circ),
            r.layer == 0,
            r.point@ == label_bits(0, circ.num_bits as nat),
            r.claim == mle_eval(
                layer_values(circ.layers()[0]),
                label_bits(0, circ.num_bits as nat),
                circ.num_bits as nat,
                circ.modulus as int,
            ),
    {
        let pt = into_bit_arr(0, circ.num_bits);
        proof {
            lemma_label_len(0, circ.num_bits as nat);
        }
        let claim = circ.layer_mle(0, pt.as_slice());
        Verifier { num_bits: circ.num_bits, modulus: circ.modulus, layer: 0, point: pt, claim }
    }

    /// Compares the claim with the extension of the public inputs.
    pub fn check_inputs(&self, circ: &ArithCircuit) -> (ok: bool)
        requires
            self.wf_for(circ),
            self.layer + 1 == circ.layers().len(),
        ensures
            ok == (self.claim == mle_eval(
                layer_values(circ.layers()[self.layer as int]),
                self.point@,
                self.num_bits as nat,
                self.modulus as int,
            )),
    {
        let v = circ.layer_mle(self.layer, self.point.as_slice());
        v == self.claim
    }

    /// Runs one layer's session against `prover` with the challenges `cs`.
    /// On success the verifier holds the claim on the next layer, and the
    /// prover, unless that layer holds the inputs, stands on it too.
    pub fn layer_verify<'a>(&mut self, circ: &'a ArithCircuit, prover: &mut Prover<'a>, cs: &[u64]) -> (ok: bool)
        requires
            old(self).wf_for(circ),
            old(self).layer + 1 < circ.layers().len(),
            old(prover).wf(),
            old(prover).circuit == circ,
            old(prover).layer == old(self).layer,
            old(prover).curr_point@ == old(self).point@,
            old(prover).rand_lbls@.len() == 0,
            cs@.len() == 2 * circ.num_bits + 1,
            all_reduced(cs@, circ.modulus),
        ensures
            ok == layer_outcome(
                circ.layers(),
                old(self).layer as int,
                circ.num_bits as nat,
                circ.modulus as int,
                old(self).point@,
                old(self).claim as int,
                cs@,
            ) is Some,
            ok ==> {
                let next = layer_outcome(
                    circ.layers(),
                    old(self).layer as int,
                    circ.num_bits as nat,
                    circ.modulus as int,
                    old(self).point@,
                    old(self).claim as int,
                    cs@,
                )->Some_0;
                &&& final(self).wf_for(circ)
                &&& final(self).layer == old(self).layer + 1
                &&& final(self).point@ == next.0
                &&& final(self).claim == next.1
                &&& final(prover).wf()
                &&& final(prover).circuit == circ
                &&& final(self).layer + 1 < circ.layers().len() ==> {
                    &&& final(prover).layer == final(self).layer
                    &&& final(prover).curr_point@ == final(self).point@
                    &&& final(prover).rand_lbls@.len() == 0
                }
                &&& final(self).layer + 1 == circ.layers().len() ==> final(prover).layer + 2 == circ.layers().len()
            },
    {
        let ghost layers = circ.layers();
        let ghost i = self.layer as int;
        let ghost g = self.point@;
        let ghost claim0 = self.claim as int;
        let n = self.num_bits;
        let p = self.modulus;
        let mut k: usize = 0;
        while k < 2 * n
            invariant
                self.wf_for(circ),
                i == old(self).layer,
                g == old(self).point@,
                claim0 == old(self).claim,
                self.layer == i,
                self.point@ == g,
                layers == circ.layers(),
                n == circ.num_bits,
                p == circ.modulus,
                i + 1 < layers.len(),
                prover.wf(),
                prover.circuit == circ,
                prover.layer == i,
                prover.curr_point@ == g,
                cs@.len() == 2 * n + 1,
                all_reduced(cs@, p),
                k <= 2 * n,
                prover.rand_lbls@ == cs@.subrange(0, k as int),
                rounds_outcome(layers, i, n as nat, p as int, g, cs@, k as nat, self.claim as int)
                    == rounds_outcome(layers, i, n as nat, p as int, g, cs@, 0, claim0),
            decreases 2 * n - k,
        {
            let poly = prover.sum_check();
            if add_mod(poly[0], poly[1], p) != self.claim {
                assert(rounds_outcome(layers, i, n as nat, p as int, g, cs@, k as nat, self.claim as int) is None);
                assert(layer_outcome(layers, i, n as nat, p as int, g, claim0, cs@) is None);
                return false;
            }
            let r = cs[k];
            self.claim = interpolate(poly.as_slice(), r, p);
            prover.add_challenge(r);
            k = k + 1;
            assert(prover.rand_lbls@ =~= cs@.subrange(0, k as int));
        }
        assert(cs@.subrange(0, 2 * n as int) =~= prover.rand_lbls@);
        let (w0, w1) = prover.get_gate_value();
        let (r0, r1) = prover.get_rand_gate();
        assert(r0@ =~= cs@.subrange(0, n as int));
        assert(r1@ =~= cs@.subrange(n as int, 2 * n as int));
        proof {
            lemma_label_len(0, 0);
            assert(all_reduced(r0@, p));
            assert(all_reduced(r1@, p));
        }
        let expect = claim_from(circ, self.layer, self.point.as_slice(), r0.as_slice(), r1.as_slice(), w0, w1);
        if self.claim != expect {
            return false;
        }
        let q = prover.get_all_vals();
        if interpolate(q.as_slice(), 0, p) != w0 || interpolate(q.as_slice(), 1, p) != w1 {
            return false;
        }
        let t = cs[2 * n];
        self.point = line_point(r0.as_slice(), r1.as_slice(), t, p);
        self.claim = interpolate(q.as_slice(), t, p);
        self.layer = self.layer + 1;
        if self.layer + 1 < circ.circuit.len() {
            prover.next_layer(t);
        }
        true
    }
}

/// Runs the protocol on `circ` with the challenges `cs`, layer by layer from
/// the outputs down to the inputs, and says whether the verifier accepts.
pub fn run_protocol_with_challenges(circ: &ArithCircuit, cs: &[u64]) -> (ok: bool)
    requires
        circ.wf(),
        cs@.len() == num_challenges(circ.layers().len(), circ.num_bits as nat),
        all_reduced(cs@, circ.modulus),
    ensures
        ok == protocol_accepts(circ.layers(), circ.num_bits as nat, circ.modulus as int, cs@),
{
    let ghost layers = circ.layers();
    let n = circ.num_bits;
    let p = circ.modulus;
    let n_layers = circ.circuit.len();
    let mut v = Verifier::new(circ);
    if n_layers == 1 {
        return v.check_inputs(circ);
    }
    let mut prover = Prover::new(circ, 0);
    let step: usize = 2 * n + 1;
    let mut pos: usize = 0;
    let total_len = cs.len();
    let ghost total = total_len as int;
    assert(cs@.subrange(0, total) =~= cs@);
    while v.layer + 1 < n_layers
        invariant
            v.wf_for(circ),
            layers == circ.layers(),
            n_layers == layers.len(),
            n_layers >= 2,
            n == circ.num_bits,
            p == circ.modulus,
            step == 2 * n + 1,
            total == cs@.len(),
            total == total_len,
            all_reduced(cs@, p),
            pos <= total,
            total - pos == (n_layers - 1 - v.layer) * step,
            prover.wf(),
            prover.circuit == circ,
            v.layer + 1 < n_layers ==> {
                &&& prover.layer == v.layer
                &&& prover.curr_point@ == v.point@
                &&& prover.rand_lbls@.len() == 0
            },
            run_from(layers, n as nat, p as int, v.layer as nat, v.point@, v.claim as int, cs@.subrange(pos as int, total))
                == protocol_accepts(layers, n as nat, p as int, cs@),
        decreases n_layers - v.layer,
    {
        let ghost rest = cs@.subrange(pos as int, total);
        let ghost before = v.layer;
        assert((n_layers - 1 - v.layer) * step >= step) by (nonlinear_arith)
            requires
                n_layers - 1 - v.layer >= 1,
                step >= 1,
        ;
        assert(total - pos >= step);
        assert(pos + step <= total_len);
        let part = sub_vec(cs, pos, pos + step);
        assert(part@ =~= rest.subrange(0, 2 * n + 1));
        assert(cs@.subrange(pos + step, total) =~= rest.subrange(2 * n + 1, rest.len() as int));
        if !v.layer_verify(circ, &mut prover, part.as_slice()) {
            return false;
        }
        assert((n_layers - 1 - before) * step - step == (n_layers - 1 - (before + 1)) * step) by (nonlinear_arith);
        pos = pos + step;
    }
    v.check_inputs(circ)
}

/// Relies on `rand::thread_rng` and `Rng::gen_range`: a value drawn from `0..p`.
#[verifier::external_body]
fn random_below(p: u64) -> (r: u64)
    requires
        p >= 1,
    ensures
        r < p,
{
    rand::thread_rng().gen_range(0..p)
}

/// Runs the protocol on `circ` with fresh random challenges and says whether
/// the verifier accepts.
pub fn run_protocol(circ: &ArithCircuit) -> (ok: bool)
    requires
        circ.wf(),
    ensures
        exists|cs: Seq<u64>|
            cs.len() == num_challenges(circ.layers().len(), circ.num_bits as nat)
                && all_reduced(cs, circ.modulus)
                && ok == protocol_accepts(circ.layers(), circ.num_bits as nat, circ.modulus as int, cs),
{
    let n_layers = circ.circuit.len();
    let step: u128 = 2 * (circ.num_bits as u128) + 1;
    assert((n_layers - 1) as u128 * step <= 0xffff_ffff_ffff_ffff * 129) by (nonlinear_arith)
        requires
            n_layers >= 1,
            n_layers <= 0xffff_ffff_ffff_ffff,
            step <= 129,
    ;
    let need: u128 = ((n_layers - 1) as u128) * step;
    let mut cs: Vec<u64> = Vec::new();
    while (cs.len() as u128) < need
        invariant
            circ.wf(),
            cs@.len() <= need,
            all_reduced(cs@, circ.modulus),
        decreases need - cs@.len(),
    {
        let r = random_below(circ.modulus);
        cs.push(r);
    }
    let ok = run_protocol_with_challenges(circ, cs.as_slice());
    ok
}

} // verus!
