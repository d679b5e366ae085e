//! The honest prover of the sum-check reduction from one layer to the next.
use vstd::prelude::*;
use crate::circuit::{
    combined_label, is_evaluated, layer_values, values_reduced, wired, wiring_eval, wiring_prefix,
    ArithCircuit, Gate,
};
use crate::field::{fadd, fmul, valid_modulus, add_mod, mul_mod, reduce};
use crate::mle::{
    all_reduced, into_bit_arr, is_bool_vec, label_bits, lemma_eq_basis, lemma_label_injective,
    lemma_label_len, lemma_mle_agrees, mle_eval, two_pow,
};
use vstd::arithmetic::div_mod::lemma_small_mod;
use crate::poly::{line_at, line_point};

verus! {

/// What the sum-check claims for the combined point `(g, r0, r1)` when the
/// layer below holds `w0` at `r0` and `w1` at `r1`:
/// `add~ * (w0 + w1) + mult~ * (w0 * w1)`.
pub open spec fn gate_claim(
    layers: Seq<Seq<Gate>>,
    i: int,
    n: nat,
    p: int,
    g: Seq<u64>,
    r0: Seq<u64>,
    r1: Seq<u64>,
    w0: int,
    w1: int,
) -> int {
    let pt = g + r0 + r1;
    fadd(
        fmul(wiring_eval(layers[i], pt, n, true, p), fadd(w0, w1, p), p),
        fmul(wiring_eval(layers[i], pt, n, false, p), fmul(w0, w1, p), p),
        p,
    )
}

/// The summand of layer `i` at `z = (z0, z1)`, with the true extension of the
/// layer below at both halves.
pub open spec fn sum_term(layers: Seq<Seq<Gate>>, i: int, n: nat, p: int, g: Seq<u64>, z: Seq<u64>) -> int {
    let z0 = z.subrange(0, n as int);
    let z1 = z.subrange(n as int, 2 * n as int);
    let below = layer_values(layers[i + 1]);
    gate_claim(layers, i, n, p, g, z0, z1, mle_eval(below, z0, n, p), mle_eval(below, z1, n, p))
}

/// The sum of the summand over every boolean completion of `prefix` by `k` entries.
pub open spec fn hypercube_sum(
    layers: Seq<Seq<Gate>>,
    i: int,
    n: nat,
    p: int,
    g: Seq<u64>,
    prefix: Seq<u64>,
    k: nat,
) -> int
    decreases k,
{
    if k == 0 {
        sum_term(layers, i, n, p, g, prefix)
    } else {
        fadd(
            hypercube_sum(layers, i, n, p, g, prefix.push(0), (k - 1) as nat),
            hypercube_sum(layers, i, n, p, g, prefix.push(1), (k - 1) as nat),
            p,
        )
    }
}

/// The round polynomial after the challenges `chal`, by its values at the
/// nodes 0, 1 and 2: the next variable fixed to the node, the later ones
/// summed over the hypercube.
pub open spec fn round_poly(layers: Seq<Seq<Gate>>, i: int, n: nat, p: int, g: Seq<u64>, chal: Seq<u64>) -> Seq<u64> {
    let rest = (2 * n - chal.len() - 1) as nat;
    seq![
        hypercube_sum(layers, i, n, p, g, chal.push(0), rest) as u64,
        hypercube_sum(layers, i, n, p, g, chal.push(1), rest) as u64,
        hypercube_sum(layers, i, n, p, g, chal.push((2int % p) as u64), rest) as u64,
    ]
}

/// The extension of layer `below` at the points of the line through `r0` and
/// `r1` with parameters `0..=n`: a polynomial of degree at most `n` in the parameter.
pub open spec fn line_values(below: Seq<Gate>, r0: Seq<u64>, r1: Seq<u64>, n: nat, p: int) -> Seq<u64> {
    Seq::new(n + 1, |t: int| mle_eval(layer_values(below), line_at(r0, r1, t % p, p), n, p) as u64)
}

proof fn lemma_hypercube_sum_reduced(
    layers: Seq<Seq<Gate>>,
    i: int,
    n: nat,
    p: int,
    g: Seq<u64>,
    prefix: Seq<u64>,
    k: nat,
)
    requires
        p >= 1,
    ensures
        0 <= hypercube_sum(layers, i, n, p, g, prefix, k) < p,
    decreases k,
{
    if k > 0 {
        lemma_hypercube_sum_reduced(layers, i, n, p, g, prefix.push(0), (k - 1) as nat);
        lemma_hypercube_sum_reduced(layers, i, n, p, g, prefix.push(1), (k - 1) as nat);
    }
}

/// The honest round polynomial is consistent with the sum it stands for: its
/// values at 0 and 1 add up to the sum of the summand over every boolean
/// completion of the challenges so far. Before the first challenge this is
/// the whole sum over `{0,1}^(2n)`.
pub proof fn lemma_round_consistency(
    layers: Seq<Seq<Gate>>,
    i: int,
    n: nat,
    p: u64,
    g: Seq<u64>,
    chal: Seq<u64>,
)
    requires
        valid_modulus(p),
        chal.len() < 2 * n,
    ensures
        fadd(
            round_poly(layers, i, n, p as int, g, chal)[0] as int,
            round_poly(layers, i, n, p as int, g, chal)[1] as int,
            p as int,
        ) == hypercube_sum(layers, i, n, p as int, g, chal, (2 * n - chal.len()) as nat),
{
    let rest = (2 * n - chal.len() - 1) as nat;
    lemma_hypercube_sum_reduced(layers, i, n, p as int, g, chal.push(0), rest);
    lemma_hypercube_sum_reduced(layers, i, n, p as int, g, chal.push(1), rest);
    assert(((2 * n - chal.len()) as nat - 1) as nat == rest);
}

/// The entries `start..end` of `v`.
pub fn sub_vec(v: &[u64], start: usize, end: usize) -> (r: Vec<u64>)
    requires
        start <= end <= v@.len(),
    ensures
        r@ == v@.subrange(start as int, end as int),
{
    let mut out: Vec<u64> = Vec::new();
    let mut k: usize = start;
    while k < end
        invariant
            start <= k <= end <= v@.len(),
            out@ == v@.subrange(start as int, k as int),
        decreases end - k,
    {
        out.push(v[k]);
        k = k + 1;
        assert(out@ =~= v@.subrange(start as int, k as int));
    }
    out
}

/// The prover's side of one layer's session: the layer under test, the
/// point `curr_point` at which its extension is claimed, and the
/// challenges received in this session.
pub struct Prover<'a> {
    pub circuit: &'a ArithCircuit,
    pub layer: usize,
    pub num_bits: usize,
    pub curr_point: Vec<u64>,
    pub rand_lbls: Vec<u64>,
}

impl<'a> Prover<'a> {
    pub open spec fn wf(&self) -> bool {
        &&& self.circuit.wf()
        &&& self.layer + 1 < self.circuit.layers().len()
        &&& self.num_bits == self.circuit.num_bits
        &&& self.curr_point@.len() == self.num_bits
        &&& all_reduced(self.curr_point@, self.circuit.modulus)
        &&& self.rand_lbls@.len() <= 2 * self.num_bits
        &&& all_reduced(self.rand_lbls@, self.circuit.modulus)
    }

    /// A prover for the output layer, claiming the extension at the label of
    /// gate `start_lbl`.
    pub fn new(circ: &'a ArithCircuit, start_lbl: usize) -> (r: Prover<'a>)
        requires
            circ.wf(),
            circ.layers().len() >= 2,
        ensures
            r.wf(),
            r.circuit == circ,
            r.layer == 0,
            r.curr_point@ == label_bits(start_lbl as nat, circ.num_bits as nat),
            r.rand_lbls@.len() == 0,
    {
        let pt = into_bit_arr(start_lbl, circ.num_bits);
        proof {
            lemma_label_len(start_lbl as nat, circ.num_bits as nat);
        }
        Prover { circuit: circ, layer: 0, num_bits: circ.num_bits, curr_point: pt, rand_lbls: Vec::new() }
    }

    /// The number of gates in the layer under test.
    pub fn num_gate_at_layer(&self) -> (r: usize)
        requires
            self.wf(),
        ensures
            r == self.circuit.layers()[self.layer as int].len(),
    {
        self.circuit.get_layer(self.layer).len()
    }

    fn term(&self, z: &Vec<u64>) -> (r: u64)
        requires
            self.wf(),
            z@.len() == 2 * self.num_bits,
            all_reduced(z@, self.circuit.modulus),
        ensures
            r == sum_term(
                self.circuit.layers(),
                self.layer as int,
                self.num_bits as nat,
                self.circuit.modulus as int,
                self.curr_point@,
                z@,
            ),
            r < self.circuit.modulus,
    {
        let n = self.num_bits;
        let p = self.circuit.modulus;
        let z0 = sub_vec(z.as_slice(), 0, n);
        let z1 = sub_vec(z.as_slice(), n, 2 * n);
        let w0 = self.circuit.layer_mle(self.layer + 1, z0.as_slice());
        let w1 = self.circuit.layer_mle(self.layer + 1, z1.as_slice());
        claim_from(self.circuit, self.layer, self.curr_point.as_slice(), z0.as_slice(), z1.as_slice(), w0, w1)
    }

    fn hypercube(&self, prefix: Vec<u64>, k: usize) -> (r: u64)
        requires
            self.wf(),
            prefix@.len() + k == 2 * self.num_bits,
            all_reduced(prefix@, self.circuit.modulus),
        ensures
            r == hypercube_sum(
                self.circuit.layers(),
                self.layer as int,
                self.num_bits as nat,
                self.circuit.modulus as int,
                self.curr_point@,
                prefix@,
                k as nat,
            ),
            r < self.circuit.modulus,
        decreases k,
    {
        if k == 0 {
            self.term(&prefix)
        } else {
            let mut a = prefix.clone();
            a.push(0);
            let mut b = prefix;
            b.push(1);
            let sa = self.hypercube(a, k - 1);
            let sb = self.hypercube(b, k - 1);
            add_mod(sa, sb, self.circuit.modulus)
        }
    }

    /// The polynomial of the next round, by its values at 0, 1 and 2.
    pub fn sum_check(&self) -> (r: [u64; 3])
        requires
            self.wf(),
            self.rand_lbls@.len() < 2 * self.num_bits,
        ensures
            r@ == round_poly(
                self.circuit.layers(),
                self.layer as int,
                self.num_bits as nat,
                self.circuit.modulus as int,
                self.curr_point@,
                self.rand_lbls@,
            ),
            all_reduced(r@, self.circuit.modulus),
    {
        let p = self.circuit.modulus;
        let rest = 2 * self.num_bits - self.rand_lbls.len() - 1;
        let mut poly: [u64; 3] = [0, 0, 0];
        let mut k: u64 = 0;
        while k < 3
            invariant
                self.wf(),
                p == self.circuit.modulus,
                self.rand_lbls@.len() < 2 * self.num_bits,
                rest == 2 * self.num_bits - self.rand_lbls@.len() - 1,
                k <= 3,
                forall|k2: int| 0 <= k2 < k ==> #[trigger] poly@[k2] == hypercube_sum(
                    self.circuit.layers(),
                    self.layer as int,
                    self.num_bits as nat,
                    p as int,
                    self.curr_point@,
                    self.rand_lbls@.push((k2 % (p as int)) as u64),
                    rest as nat,
                ),
                forall|k2: int| 0 <= k2 < 3 ==> #[trigger] poly@[k2] < p,
            decreases 3 - k,
        {
            let mut prefix = self.rand_lbls.clone();
            prefix.push(reduce(k, p));
            let v = self.hypercube(prefix, rest);
            poly[k as usize] = v;
            k = k + 1;
        }
        proof {
            vstd::arithmetic::div_mod::lemma_small_mod(0, p as nat);
            vstd::arithmetic::div_mod::lemma_small_mod(1, p as nat);
            assert(poly@ =~= round_poly(
                self.circuit.layers(),
                self.layer as int,
                self.num_bits as nat,
                p as int,
                self.curr_point@,
                self.rand_lbls@,
            ));
        }
        poly
    }

    /// Records the verifier's challenge for the round just answered.
    pub fn add_challenge(&mut self, r: u64)
        requires
            old(self).wf(),
            old(self).rand_lbls@.len() < 2 * old(self).num_bits,
            r < old(self).circuit.modulus,
        ensures
            final(self).wf(),
            final(self).rand_lbls@ == old(self).rand_lbls@.push(r),
            final(self).circuit == old(self).circuit,
            final(self).layer == old(self).layer,
            final(self).curr_point@ == old(self).curr_point@,
    {
        self.rand_lbls.push(r);
    }

    /// The two points `r0` and `r1` that the challenges of a finished session fix.
    pub fn get_rand_gate(&self) -> (r: (Vec<u64>, Vec<u64>))
        requires
            self.wf(),
            self.rand_lbls@.len() == 2 * self.num_bits,
        ensures
            r.0@ == self.rand_lbls@.subrange(0, self.num_bits as int),
            r.1@ == self.rand_lbls@.subrange(self.num_bits as int, 2 * self.num_bits as int),
    {
        let n = self.num_bits;
        (sub_vec(self.rand_lbls.as_slice(), 0, n), sub_vec(self.rand_lbls.as_slice(), n, 2 * n))
    }

    /// The extension of the layer below at `r0` and at `r1`.
    pub fn get_gate_value(&self) -> (r: (u64, u64))
        requires
            self.wf(),
            self.rand_lbls@.len() == 2 * self.num_bits,
        ensures
            r.0 == mle_eval(
                layer_values(self.circuit.layers()[self.layer + 1]),
                self.rand_lbls@.subrange(0, self.num_bits as int),
                self.num_bits as nat,
                self.circuit.modulus as int,
            ),
            r.1 == mle_eval(
                layer_values(self.circuit.layers()[self.layer + 1]),
                self.rand_lbls@.subrange(self.num_bits as int, 2 * self.num_bits as int),
                self.num_bits as nat,
                self.circuit.modulus as int,
            ),
    {
        let (r0, r1) = self.get_rand_gate();
        (self.circuit.layer_mle(self.layer + 1, r0.as_slice()), self.circuit.layer_mle(self.layer + 1, r1.as_slice()))
    }

    /// The extension of the layer below along the line from `r0` to `r1`,
    /// at the parameters `0..=num_bits`.
    pub fn get_all_vals(&self) -> (r: Vec<u64>)
        requires
            self.wf(),
            self.rand_lbls@.len() == 2 * self.num_bits,
        ensures
            r@ == line_values(
                self.circuit.layers()[self.layer + 1],
                self.rand_lbls@.subrange(0, self.num_bits as int),
                self.rand_lbls@.subrange(self.num_bits as int, 2 * self.num_bits as int),
                self.num_bits as nat,
                self.circuit.modulus as int,
            ),
            all_reduced(r@, self.circuit.modulus),
    {
        let p = self.circuit.modulus;
        let n = self.num_bits;
        let (r0, r1) = self.get_rand_gate();
        let ghost target = line_values(self.circuit.layers()[self.layer + 1], r0@, r1@, n as nat, p as int);
        let mut vals: Vec<u64> = Vec::new();
        let mut t: usize = 0;
        while t <= n
            invariant
                self.wf(),
                p == self.circuit.modulus,
                n == self.num_bits,
                r0@.len() == n,
                r1@.len() == n,
                r0@ == self.rand_lbls@.subrange(0, n as int),
                r1@ == self.rand_lbls@.subrange(n as int, 2 * n as int),
                all_reduced(r0@, p),
                all_reduced(r1@, p),
                target == line_values(self.circuit.layers()[self.layer + 1], r0@, r1@, n as nat, p as int),
                t <= n + 1,
                vals@ == target.subrange(0, t as int),
                all_reduced(vals@, p),
            decreases n + 1 - t,
        {
            let tp = reduce(t as u64, p);
            let pt = line_point(r0.as_slice(), r1.as_slice(), tp, p);
            let v = self.circuit.layer_mle(self.layer + 1, pt.as_slice());
            vals.push(v);
            t = t + 1;
            assert(vals@ =~= target.subrange(0, t as int));
        }
        assert(vals@ =~= target);
        vals
    }

    /// Moves to the next layer, claiming its extension at the point of
    /// parameter `t` on the line from `r0` to `r1`, with no challenge yet.
    pub fn next_layer(&mut self, t: u64)
        requires
            old(self).wf(),
            old(self).rand_lbls@.len() == 2 * old(self).num_bits,
            old(self).layer + 2 < old(self).circuit.layers().len(),
            t < old(self).circuit.modulus,
        ensures
            final(self).wf(),
            final(self).circuit == old(self).circuit,
            final(self).layer == old(self).layer + 1,
            final(self).curr_point@ == line_at(
                old(self).rand_lbls@.subrange(0, old(self).num_bits as int),
                old(self).rand_lbls@.subrange(old(self).num_bits as int, 2 * old(self).num_bits as int),
                t as int,
                old(self).circuit.modulus as int,
            ),
            final(self).rand_lbls@.len() == 0,
    {
        let (r0, r1) = self.get_rand_gate();
        self.curr_point = line_point(r0.as_slice(), r1.as_slice(), t, self.circuit.modulus);
        self.layer = self.layer + 1;
        self.rand_lbls = Vec::new();
    }
}

/// Evaluates `gate_claim` for layer `layer` of `circ`.
pub fn claim_from(circ: &ArithCircuit, layer: usize, g: &[u64], r0: &[u64], r1: &[u64], w0: u64, w1: u64) -> (r: u64)
    requires
        circ.wf(),
        layer + 1 < circ.layers().len(),
        g@.len() == circ.num_bits,
        r0@.len() == circ.num_bits,
        r1@.len() == circ.num_bits,
        all_reduced(g@, circ.modulus),
        all_reduced(r0@, circ.modulus),
        all_reduced(r1@, circ.modulus),
        w0 < circ.modulus,
        w1 < circ.modulus,
    ensures
        r == gate_claim(
            circ.layers(),
            layer as int,
            circ.num_bits as nat,
            circ.modulus as int,
            g@,
            r0@,
            r1@,
            w0 as int,
            w1 as int,
        ),
        r < circ.modulus,
{
    let p = circ.modulus;
    let add_w = circ.layer_wiring(layer, g, r0, r1, true);
    let mul_w = circ.layer_wiring(layer, g, r0, r1, false);
    let a = mul_mod(add_w, add_mod(w0, w1, p), p);
    let b = mul_mod(mul_w, mul_mod(w0, w1, p), p);
    add_mod(a, b, p)
}

/// The hypotheses under which a layer's sum collapses on the hypercube:
/// wired, evaluated and reduced, with every layer labelled on `n` bits.
pub open spec fn collapses(layers: Seq<Seq<Gate>>, i: int, n: nat, p: int) -> bool {
    &&& p >= 2
    &&& wired(layers)
    &&& is_evaluated(layers, p)
    &&& values_reduced(layers, p)
    &&& forall|k: int| 0 <= k < layers.len() ==> (#[trigger] layers[k]).len() <= two_pow(n)
    &&& 0 <= i < layers.len() - 1
}

proof fn lemma_concat3_eq(a: Seq<u64>, b: Seq<u64>, c: Seq<u64>, x: Seq<u64>, y: Seq<u64>, z: Seq<u64>)
    requires
        a.len() == x.len(),
        b.len() == y.len(),
        c.len() == z.len(),
    ensures
        (a + b + c == x + y + z) == (a == x && b == y && c == z),
{
    if a + b + c == x + y + z {
        let s = a + b + c;
        assert(a =~= s.subrange(0, a.len() as int));
        assert(x =~= (x + y + z).subrange(0, a.len() as int));
        assert(b =~= s.subrange(a.len() as int, (a.len() + b.len()) as int));
        assert(y =~= (x + y + z).subrange(a.len() as int, (a.len() + b.len()) as int));
        assert(c =~= s.subrange((a.len() + b.len()) as int, s.len() as int));
        assert(z =~= (x + y + z).subrange((a.len() + b.len()) as int, s.len() as int));
    }
}

proof fn lemma_bool_concat(a: Seq<u64>, b: Seq<u64>, c: Seq<u64>)
    requires
        is_bool_vec(a),
        is_bool_vec(b),
        is_bool_vec(c),
    ensures
        is_bool_vec(a + b + c),
{
    let s = a + b + c;
    assert forall|k: int| 0 <= k < s.len() implies (#[trigger] s[k] == 0 || s[k] == 1) by {
        if k < a.len() {
            assert(s[k] == a[k]);
        } else if k < a.len() + b.len() {
            assert(s[k] == b[k - a.len()]);
        } else {
            assert(s[k] == c[k - a.len() - b.len()]);
        }
    }
}

/// At boolean points the wiring extension of layer `i` seen from the label
/// of gate `j` is one exactly at the labels of gate `j`'s inputs, and only
/// for gate `j`'s operation.
proof fn lemma_wiring_at_cube(
    layers: Seq<Seq<Gate>>,
    i: int,
    n: nat,
    p: int,
    j: int,
    z0: Seq<u64>,
    z1: Seq<u64>,
    add: bool,
    k: nat,
)
    requires
        collapses(layers, i, n, p),
        0 <= j < layers[i].len(),
        k <= layers[i].len(),
        z0.len() == n,
        z1.len() == n,
        is_bool_vec(z0),
        is_bool_vec(z1),
    ensures
        wiring_prefix(layers[i], label_bits(j as nat, n) + z0 + z1, n, add, k, p) == (if j < k
            && layers[i][j].is_add == add && z0 == label_bits(layers[i][j].w0 as nat, n) && z1
            == label_bits(layers[i][j].w1 as nat, n) {
            1int
        } else {
            0int
        }),
    decreases k,
{
    let lay = layers[i];
    let g = label_bits(j as nat, n);
    if k > 0 {
        let j2 = (k - 1) as int;
        lemma_wiring_at_cube(layers, i, n, p, j, z0, z1, add, (k - 1) as nat);
        let gt = lay[j2];
        if gt.is_add == add {
            lemma_label_len(j2 as nat, n);
            lemma_label_len(gt.w0 as nat, n);
            lemma_label_len(gt.w1 as nat, n);
            lemma_label_len(j as nat, n);
            lemma_bool_concat(label_bits(j2 as nat, n), label_bits(gt.w0 as nat, n), label_bits(gt.w1 as nat, n));
            lemma_bool_concat(g, z0, z1);
            lemma_eq_basis(combined_label(gt, j2 as nat, n), g + z0 + z1, p);
            lemma_concat3_eq(label_bits(j2 as nat, n), label_bits(gt.w0 as nat, n), label_bits(gt.w1 as nat, n), g, z0, z1);
            assert(lay.len() <= two_pow(n));
            if label_bits(j2 as nat, n) == g {
                lemma_label_injective(j2 as nat, j as nat, n);
            }
            lemma_small_mod(0, p as nat);
            lemma_small_mod(1, p as nat);
        }
    }
}

/// The summand of layer `i`, seen from the label of gate `j`, at a boolean
/// point: the value of gate `j` at the labels of its inputs, zero elsewhere.
proof fn lemma_sum_term_at_cube(layers: Seq<Seq<Gate>>, i: int, n: nat, p: int, j: int, z: Seq<u64>)
    requires
        collapses(layers, i, n, p),
        0 <= j < layers[i].len(),
        z.len() == 2 * n,
        is_bool_vec(z),
    ensures
        sum_term(layers, i, n, p, label_bits(j as nat, n), z) == (if z == label_bits(layers[i][j].w0 as nat, n)
            + label_bits(layers[i][j].w1 as nat, n) {
            layers[i][j].value as int
        } else {
            0int
        }),
{
    let gt = layers[i][j];
    let z0 = z.subrange(0, n as int);
    let z1 = z.subrange(n as int, 2 * n as int);
    let la = label_bits(gt.w0 as nat, n);
    let lb = label_bits(gt.w1 as nat, n);
    lemma_label_len(gt.w0 as nat, n);
    lemma_label_len(gt.w1 as nat, n);
    assert(z =~= z0 + z1);
    assert(is_bool_vec(z0));
    assert(is_bool_vec(z1));
    lemma_wiring_at_cube(layers, i, n, p, j, z0, z1, true, layers[i].len());
    lemma_wiring_at_cube(layers, i, n, p, j, z0, z1, false, layers[i].len());
    let below = layer_values(layers[i + 1]);
    let w0 = mle_eval(below, z0, n, p);
    let w1 = mle_eval(below, z1, n, p);
    assert(0 <= w0 < p && 0 <= w1 < p) by {
        if below.len() > 0 {
            assert(w0 == crate::mle::mle_prefix(below, z0, n, below.len(), p));
        }
    }
    lemma_small_mod(0, p as nat);
    if z == la + lb {
        assert(z0 =~= la);
        assert(z1 =~= lb);
        assert(gt.w0 < layers[i + 1].len());
        assert(gt.w1 < layers[i + 1].len());
        assert forall|k: int| 0 <= k < below.len() implies #[trigger] below[k] < p by {
            assert(layers[i + 1][k].value < p);
        }
        assert(layers[i + 1].len() <= two_pow(n));
        lemma_mle_agrees(below, n, gt.w0 as nat, p);
        lemma_mle_agrees(below, n, gt.w1 as nat, p);
        assert(gt.value == crate::circuit::gate_output(gt, layers[i + 1], p));
        let s = fadd(w0, w1, p);
        let m = fmul(w0, w1, p);
        lemma_small_mod(s as nat, p as nat);
        lemma_small_mod(m as nat, p as nat);
    } else {
        if z0 == la && z1 == lb {
            assert(z =~= la + lb);
        }
    }
}

proof fn lemma_hypercube_at_cube(
    layers: Seq<Seq<Gate>>,
    i: int,
    n: nat,
    p: int,
    j: int,
    prefix: Seq<u64>,
    k: nat,
)
    requires
        collapses(layers, i, n, p),
        0 <= j < layers[i].len(),
        prefix.len() + k == 2 * n,
        is_bool_vec(prefix),
    ensures
        ({
            let t = label_bits(layers[i][j].w0 as nat, n) + label_bits(layers[i][j].w1 as nat, n);
            hypercube_sum(layers, i, n, p, label_bits(j as nat, n), prefix, k) == (if prefix == t.subrange(
                0,
                prefix.len() as int,
            ) {
                layers[i][j].value as int
            } else {
                0int
            })
        }),
    decreases k,
{
    let gt = layers[i][j];
    let t = label_bits(gt.w0 as nat, n) + label_bits(gt.w1 as nat, n);
    lemma_label_len(gt.w0 as nat, n);
    lemma_label_len(gt.w1 as nat, n);
    lemma_bool_concat(label_bits(gt.w0 as nat, n), label_bits(gt.w1 as nat, n), Seq::<u64>::empty());
    assert(t + Seq::<u64>::empty() =~= t);
    assert(gt.value < p);
    lemma_small_mod(0, p as nat);
    lemma_small_mod(gt.value as nat, p as nat);
    if k == 0 {
        assert(t.subrange(0, prefix.len() as int) =~= t);
        lemma_sum_term_at_cube(layers, i, n, p, j, prefix);
    } else {
        let m = prefix.len() as int;
        let with0 = prefix.push(0);
        let with1 = prefix.push(1);
        assert(is_bool_vec(with0));
        assert(is_bool_vec(with1));
        lemma_hypercube_at_cube(layers, i, n, p, j, with0, (k - 1) as nat);
        lemma_hypercube_at_cube(layers, i, n, p, j, with1, (k - 1) as nat);
        assert(t[m] == 0 || t[m] == 1);
        if prefix == t.subrange(0, m) {
            if t[m] == 0 {
                assert(with0 =~= t.subrange(0, m + 1));
                assert(with1 != t.subrange(0, m + 1)) by {
                    assert(with1[m] != t.subrange(0, m + 1)[m]);
                }
            } else {
                assert(with1 =~= t.subrange(0, m + 1));
                assert(with0 != t.subrange(0, m + 1)) by {
                    assert(with0[m] != t.subrange(0, m + 1)[m]);
                }
            }
        } else {
            assert(with0 != t.subrange(0, m + 1)) by {
                if with0 == t.subrange(0, m + 1) {
                    assert(prefix =~= with0.subrange(0, m));
                    assert(t.subrange(0, m) =~= t.subrange(0, m + 1).subrange(0, m));
                }
            }
            assert(with1 != t.subrange(0, m + 1)) by {
                if with1 == t.subrange(0, m + 1) {
                    assert(prefix =~= with1.subrange(0, m));
                    assert(t.subrange(0, m) =~= t.subrange(0, m + 1).subrange(0, m));
                }
            }
        }
    }
}

/// The first round of an honest session starts right: on an evaluated
/// circuit, with the claim placed at the label of gate `j` of layer `i`,
/// the sum over the whole hypercube is the value of gate `j`, and so are
/// the first round polynomial's values at 0 and 1 added up.
pub proof fn lemma_first_round_sum(layers: Seq<Seq<Gate>>, i: int, n: nat, p: u64, j: int)
    requires
        valid_modulus(p),
        collapses(layers, i, n, p as int),
        0 <= j < layers[i].len(),
        n >= 1,
    ensures
        hypercube_sum(layers, i, n, p as int, label_bits(j as nat, n), Seq::<u64>::empty(), 2 * n)
            == layers[i][j].value,
        fadd(
            round_poly(layers, i, n, p as int, label_bits(j as nat, n), Seq::<u64>::empty())[0] as int,
            round_poly(layers, i, n, p as int, label_bits(j as nat, n), Seq::<u64>::empty())[1] as int,
            p as int,
        ) == layers[i][j].value,
{
    let t = label_bits(layers[i][j].w0 as nat, n) + label_bits(layers[i][j].w1 as nat, n);
    assert(Seq::<u64>::empty() =~= t.subrange(0, 0));
    lemma_hypercube_at_cube(layers, i, n, p as int, j, Seq::<u64>::empty(), 2 * n);
    lemma_round_consistency(layers, i, n, p, label_bits(j as nat, n), Seq::<u64>::empty());
}

} // verus!
