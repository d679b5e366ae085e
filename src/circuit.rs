//! Layered arithmetic circuits: layer 0 holds the outputs, the last layer the
//! inputs, and every other gate adds or multiplies two gates of the layer below.
use vstd::prelude::*;
use crate::field::{fadd, fmul, valid_modulus, add_mod, mul_mod, reduce};
use crate::mle::{
    all_reduced, eq_poly, into_bit_arr, label_bits, lemma_label_len, mle_eval, mle_interpolate,
    mle_values, two_pow, lemma_mle_agrees, lemma_two_pow_mono, lemma_two_pow_64,
};

verus! {

#[derive(Clone, Copy, Debug, PartialEq, Eq, Structural)]
pub struct Gate {
    /// Index of the left input in the layer below.
    pub w0: usize,
    /// Index of the right input in the layer below.
    pub w1: usize,
    pub is_add: bool,
    pub value: u64,
}

impl Gate {
    pub fn new(w0: usize, w1: usize, is_add: bool, value: u64) -> (g: Gate)
        ensures
            g == (Gate { w0, w1, is_add, value }),
    {
        Gate { w0, w1, is_add, value }
    }

    pub fn get_wiring(&self) -> (r: (usize, usize))
        ensures
            r == (self.w0, self.w1),
    {
        (self.w0, self.w1)
    }

    pub fn is_add(&self) -> (r: bool)
        ensures
            r == self.is_add,
    {
        self.is_add
    }

    pub fn val(&self) -> (r: u64)
        ensures
            r == self.value,
    {
        self.value
    }
}

/// What a gate computes from the layer below it.
pub open spec fn gate_output(g: Gate, below: Seq<Gate>, p: int) -> int {
    let a = below[g.w0 as int].value as int;
    let b = below[g.w1 as int].value as int;
    if g.is_add {
        fadd(a, b, p)
    } else {
        fmul(a, b, p)
    }
}

pub open spec fn layer_values(layer: Seq<Gate>) -> Seq<u64> {
    layer.map_values(|g: Gate| g.value)
}

/// At least one layer, and every gate above the inputs reads existing gates.
pub open spec fn wired(layers: Seq<Seq<Gate>>) -> bool {
    &&& layers.len() >= 1
    &&& forall|i: int, j: int|
        0 <= i < layers.len() - 1 && 0 <= j < layers[i].len() ==> {
            &&& (#[trigger] layers[i][j]).w0 < layers[i + 1].len()
            &&& layers[i][j].w1 < layers[i + 1].len()
        }
}

pub open spec fn values_reduced(layers: Seq<Seq<Gate>>, p: int) -> bool {
    forall|i: int, j: int|
        0 <= i < layers.len() && 0 <= j < layers[i].len() ==> (#[trigger] layers[i][j]).value < p
}

/// Every gate above the inputs holds what it computes from the layer below.
pub open spec fn is_evaluated(layers: Seq<Seq<Gate>>, p: int) -> bool {
    forall|i: int, j: int|
        0 <= i < layers.len() - 1 && 0 <= j < layers[i].len() ==> (#[trigger] layers[i][j]).value
            == gate_output(layers[i][j], layers[i + 1], p)
}

/// Same shape, wiring and operations, and the same input values.
pub open spec fn same_structure(a: Seq<Seq<Gate>>, b: Seq<Seq<Gate>>) -> bool {
    &&& same_wiring(a, b)
    &&& a.len() >= 1 ==> forall|j: int|
        0 <= j < a[a.len() - 1].len() ==> (#[trigger] a[a.len() - 1][j]).value == b[a.len()
            - 1][j].value
}

/// Same shape, wiring and operations.
pub open spec fn same_wiring(a: Seq<Seq<Gate>>, b: Seq<Seq<Gate>>) -> bool {
    &&& a.len() == b.len()
    &&& forall|i: int| 0 <= i < a.len() ==> (#[trigger] a[i]).len() == b[i].len()
    &&& forall|i: int, j: int|
        0 <= i < a.len() && 0 <= j < a[i].len() ==> {
            &&& (#[trigger] a[i][j]).w0 == b[i][j].w0
            &&& a[i][j].w1 == b[i][j].w1
            &&& a[i][j].is_add == b[i][j].is_add
        }
}

/// `w` is the fewest bits that label every gate of every layer.
pub open spec fn is_bit_width(layers: Seq<Seq<Gate>>, w: nat) -> bool {
    &&& forall|i: int| 0 <= i < layers.len() ==> (#[trigger] layers[i]).len() <= two_pow(w)
    &&& w > 0 ==> exists|i: int|
        0 <= i < layers.len() && (#[trigger] layers[i]).len() > two_pow((w - 1) as nat)
}

/// The combined label of gate `j`: its own label followed by those of its inputs.
pub open spec fn combined_label(g: Gate, j: nat, n: nat) -> Seq<u64> {
    label_bits(j, n) + label_bits(g.w0 as nat, n) + label_bits(g.w1 as nat, n)
}

/// Sum of `eq(combined_label(j), pt)` over the first `k` gates whose
/// operation is addition when `add` holds, multiplication otherwise.
pub open spec fn wiring_prefix(layer: Seq<Gate>, pt: Seq<u64>, n: nat, add: bool, k: nat, p: int) -> int
    decreases k,
{
    if k == 0 {
        0
    } else {
        let prev = wiring_prefix(layer, pt, n, add, (k - 1) as nat, p);
        let g = layer[k - 1];
        if g.is_add == add {
            fadd(prev, eq_poly(combined_label(g, (k - 1) as nat, n), pt, p), p)
        } else {
            prev
        }
    }
}

/// The extension of the wiring predicate (`add~` or `mult~`) of `layer` at
/// the combined point `pt = (gate point, left point, right point)`.
pub open spec fn wiring_eval(layer: Seq<Gate>, pt: Seq<u64>, n: nat, add: bool, p: int) -> int {
    wiring_prefix(layer, pt, n, add, layer.len(), p)
}

#[derive(Clone, Copy, Debug, PartialEq, Eq, Structural)]
pub enum CircuitError {
    /// The modulus is below 2 or too large for the arithmetic.
    BadModulus,
    /// The circuit has no layer.
    NoLayers,
    /// A gate reads an input that the layer below does not have.
    BadWiring { layer: usize, gate: usize },
}

/// A circuit with its field modulus, the bit width of its gate labels and a
/// cursor on one layer.
pub struct ArithCircuit {
    pub circuit: Vec<Vec<Gate>>,
    pub curr_layer: usize,
    pub num_bits: usize,
    pub modulus: u64,
}

pub open spec fn layers_view(v: Seq<Vec<Gate>>) -> Seq<Seq<Gate>> {
    v.map_values(|l: Vec<Gate>| l@)
}

/// Gate `j` of layer `i` reads a gate that the layer below does not have.
pub open spec fn bad_gate(layers: Seq<Seq<Gate>>, i: int, j: int) -> bool {
    &&& 0 <= i < layers.len() - 1
    &&& 0 <= j < layers[i].len()
    &&& (layers[i][j].w0 >= layers[i + 1].len() || layers[i][j].w1 >= layers[i + 1].len())
}

/// Gate `j` of layer `i` is the first badly wired gate, layer by layer.
pub open spec fn first_bad_gate(layers: Seq<Seq<Gate>>, i: int, j: int) -> bool {
    &&& bad_gate(layers, i, j)
    &&& forall|i2: int, j2: int| (i2 < i || (i2 == i && j2 < j)) ==> !#[trigger] bad_gate(layers, i2, j2)
}

/// Two evaluated circuits of the same structure hold the same values, layer
/// `from` and every layer below it.
proof fn lemma_evaluation_unique_from(a: Seq<Seq<Gate>>, b: Seq<Seq<Gate>>, p: int, from: nat)
    requires
        wired(a),
        same_structure(a, b),
        is_evaluated(a, p),
        is_evaluated(b, p),
        from < a.len(),
    ensures
        forall|i: int| from <= i < a.len() ==> #[trigger] a[i] == b[i],
    decreases a.len() - from,
{
    let last = a.len() - 1;
    if from < last {
        lemma_evaluation_unique_from(a, b, p, from + 1);
    } else {
        assert(a[last] =~= b[last]);
    }
    let i = from as int;
    if from < last {
        assert(a[i + 1] == b[i + 1]);
        assert forall|j: int| 0 <= j < a[i].len() implies #[trigger] a[i][j] == b[i][j] by {
            assert(a[i][j].value == gate_output(a[i][j], a[i + 1], p));
            assert(b[i][j].value == gate_output(b[i][j], b[i + 1], p));
        }
        assert(a[i] =~= b[i]);
    }
}

/// Evaluation is determined by the structure: two evaluated circuits with
/// the same wiring, operations and inputs hold the same values everywhere.
pub proof fn lemma_evaluation_unique(a: Seq<Seq<Gate>>, b: Seq<Seq<Gate>>, p: int)
    requires
        wired(a),
        same_structure(a, b),
        is_evaluated(a, p),
        is_evaluated(b, p),
    ensures
        a == b,
{
    lemma_evaluation_unique_from(a, b, p, 0);
    assert(a =~= b);
}

/// Evaluating again changes nothing: a circuit that `evaluate_circuit` left
/// behind is left as it is by a second run.
pub proof fn lemma_evaluation_deterministic(before: Seq<Seq<Gate>>, once: Seq<Seq<Gate>>, twice: Seq<Seq<Gate>>, p: int)
    requires
        wired(before),
        same_structure(before, once),
        is_evaluated(once, p),
        same_structure(once, twice),
        is_evaluated(twice, p),
    ensures
        once == twice,
{
    lemma_same_wiring(before, once, 0);
    lemma_evaluation_unique(once, twice, p);
}

/// Wiring and bit width depend on the shape and wiring alone.
pub proof fn lemma_same_wiring(a: Seq<Seq<Gate>>, b: Seq<Seq<Gate>>, w: nat)
    requires
        same_wiring(a, b),
    ensures
        wired(a) == wired(b),
        is_bit_width(a, w) == is_bit_width(b, w),
{
    if wired(a) {
        assert forall|i: int, j: int|
            0 <= i < b.len() - 1 && 0 <= j < b[i].len() implies {
                &&& (#[trigger] b[i][j]).w0 < b[i + 1].len()
                &&& b[i][j].w1 < b[i + 1].len()
            } by {
            assert(a[i][j].w0 == b[i][j].w0);
            assert(a[i + 1].len() == b[i + 1].len());
        }
    }
    if wired(b) {
        assert forall|i: int, j: int|
            0 <= i < a.len() - 1 && 0 <= j < a[i].len() implies {
                &&& (#[trigger] a[i][j]).w0 < a[i + 1].len()
                &&& a[i][j].w1 < a[i + 1].len()
            } by {
            assert(a[i][j].w0 == b[i][j].w0);
            assert(a[i + 1].len() == b[i + 1].len());
        }
    }
    if is_bit_width(a, w) {
        assert forall|i: int| 0 <= i < b.len() implies (#[trigger] b[i]).len() <= two_pow(w) by {
            assert(a[i].len() == b[i].len());
        }
    }
    if is_bit_width(b, w) {
        assert forall|i: int| 0 <= i < a.len() implies (#[trigger] a[i]).len() <= two_pow(w) by {
            assert(a[i].len() == b[i].len());
        }
    }
    if w > 0 {
        if is_bit_width(a, w) {
            let k = choose|k: int| 0 <= k < a.len() && (#[trigger] a[k]).len() > two_pow((w - 1) as nat);
            assert(b[k].len() == a[k].len());
        }
        if is_bit_width(b, w) {
            let k = choose|k: int| 0 <= k < b.len() && (#[trigger] b[k]).len() > two_pow((w - 1) as nat);
            assert(b[k].len() == a[k].len());
        }
    }
}

impl ArithCircuit {
    /// The gates, layer by layer.
    pub open spec fn layers(&self) -> Seq<Seq<Gate>> {
        self.circuit@.map_values(|l: Vec<Gate>| l@)
    }

    pub open spec fn cursor(&self) -> nat {
        self.curr_layer as nat
    }

    /// Wired, reduced, with a correct bit width and a cursor on a layer.
    pub open spec fn wf(&self) -> bool {
        &&& wired(self.layers())
        &&& valid_modulus(self.modulus)
        &&& values_reduced(self.layers(), self.modulus as int)
        &&& is_bit_width(self.layers(), self.num_bits as nat)
        &&& self.num_bits <= 64
        &&& self.layers().len() < usize::MAX
        &&& self.cursor() < self.layers().len()
    }

    /// Builds a circuit from its layers, outputs first and inputs last:
    /// checks the modulus and the wiring, reduces the inputs modulo
    /// `modulus`, fixes the bit width and evaluates every gate.
    pub fn new(layers: Vec<Vec<Gate>>, modulus: u64) -> (r: Result<ArithCircuit, CircuitError>)
        requires
            layers@.len() < usize::MAX,
        ensures
            r == Err::<ArithCircuit, CircuitError>(CircuitError::BadModulus) <==> !valid_modulus(modulus),
            r == Err::<ArithCircuit, CircuitError>(CircuitError::NoLayers) <==> valid_modulus(modulus)
                && layers@.len() == 0,
            r is Ok <==> valid_modulus(modulus) && wired(layers_view(layers@)),
            r matches Err(CircuitError::BadWiring { layer, gate }) ==> valid_modulus(modulus)
                && first_bad_gate(layers_view(layers@), layer as int, gate as int),
            r matches Ok(c) ==> {
                &&& c.wf()
                &&& c.cursor() == 0
                &&& c.modulus == modulus
                &&& same_wiring(layers_view(layers@), c.layers())
                &&& forall|j: int|
                    0 <= j < c.layers().last().len() ==> (#[trigger] c.layers().last()[j]).value
                        == layers@.last()@[j].value % modulus
                &&& is_evaluated(c.layers(), modulus as int)
            },
    {
        if modulus < 2 || modulus > crate::field::MAX_MODULUS {
            return Err(CircuitError::BadModulus);
        }
        let n_layers = layers.len();
        if n_layers == 0 {
            return Err(CircuitError::NoLayers);
        }
        let ghost lv = layers_view(layers@);
        let mut i: usize = 0;
        while i + 1 < n_layers
            invariant
                lv == layers_view(layers@),
                n_layers == lv.len(),
                n_layers >= 1,
                i < n_layers,
                valid_modulus(modulus),
                forall|i2: int, j2: int| i2 < i ==> !#[trigger] bad_gate(lv, i2, j2),
            decreases n_layers - i,
        {
            let below = layers[i + 1].len();
            let mut j: usize = 0;
            while j < layers[i].len()
                invariant
                    lv == layers_view(layers@),
                    n_layers == lv.len(),
                    i + 1 < n_layers,
                    below == lv[i + 1].len(),
                    valid_modulus(modulus),
                    j <= lv[i as int].len(),
                    forall|i2: int, j2: int| (i2 < i || (i2 == i && j2 < j)) ==> !#[trigger] bad_gate(lv, i2, j2),
                decreases lv[i as int].len() - j,
            {
                let g = layers[i][j];
                assert(g == lv[i as int][j as int]);
                if g.w0 >= below || g.w1 >= below {
                    return Err(CircuitError::BadWiring { layer: i, gate: j });
                }
                j = j + 1;
            }
            i = i + 1;
        }
        assert(wired(lv)) by {
            assert forall|i2: int, j2: int| 0 <= i2 < lv.len() - 1 && 0 <= j2 < lv[i2].len() implies {
                &&& (#[trigger] lv[i2][j2]).w0 < lv[i2 + 1].len()
                &&& lv[i2][j2].w1 < lv[i2 + 1].len()
            } by {
                assert(!bad_gate(lv, i2, j2));
            }
        }
        // Inputs reduced, every other value cleared until evaluation.
        let mut clean: Vec<Vec<Gate>> = Vec::new();
        let mut maxlen: usize = 0;
        let mut k: usize = 0;
        while k < n_layers
            invariant
                lv == layers_view(layers@),
                n_layers == lv.len(),
                k <= n_layers,
                valid_modulus(modulus),
                clean@.len() == k,
                forall|k2: int| 0 <= k2 < k ==> (#[trigger] clean@[k2])@.len() == lv[k2].len(),
                forall|k2: int, j2: int| 0 <= k2 < k && 0 <= j2 < lv[k2].len() ==> {
                    &&& (#[trigger] clean@[k2]@[j2]).w0 == lv[k2][j2].w0
                    &&& clean@[k2]@[j2].w1 == lv[k2][j2].w1
                    &&& clean@[k2]@[j2].is_add == lv[k2][j2].is_add
                    &&& clean@[k2]@[j2].value < modulus
                    &&& k2 == n_layers - 1 ==> clean@[k2]@[j2].value == lv[k2][j2].value % modulus
                },
                forall|k2: int| 0 <= k2 < k ==> (#[trigger] lv[k2]).len() <= maxlen,
                maxlen == 0 || exists|k2: int| 0 <= k2 < k && (#[trigger] lv[k2]).len() == maxlen,
            decreases n_layers - k,
        {
            let src = &layers[k];
            assert(src@ == lv[k as int]);
            let mut out: Vec<Gate> = Vec::new();
            let mut j: usize = 0;
            while j < src.len()
                invariant
                    src@ == lv[k as int],
                    k < n_layers,
                    valid_modulus(modulus),
                    j <= src@.len(),
                    out@.len() == j,
                    forall|j2: int| 0 <= j2 < j ==> {
                        &&& (#[trigger] out@[j2]).w0 == src@[j2].w0
                        &&& out@[j2].w1 == src@[j2].w1
                        &&& out@[j2].is_add == src@[j2].is_add
                        &&& out@[j2].value < modulus
                        &&& k == n_layers - 1 ==> out@[j2].value == src@[j2].value % modulus
                    },
                decreases src@.len() - j,
            {
                let g = src[j];
                let v: u64 = if k + 1 == n_layers {
                    reduce(g.value, modulus)
                } else {
                    0
                };
                out.push(Gate { w0: g.w0, w1: g.w1, is_add: g.is_add, value: v });
                j = j + 1;
            }
            if out.len() > maxlen {
                maxlen = out.len();
            }
            clean.push(out);
            k = k + 1;
        }
        let ghost cv = layers_view(clean@);
        assert(same_wiring(lv, cv));
        proof {
            lemma_same_wiring(lv, cv, 0);
        }
        // The fewest bits that label the widest layer.
        let mut w: usize = 0;
        let mut cap: u128 = 1;
        while cap < maxlen as u128
            invariant
                cap == two_pow(w as nat),
                cap >= 1,
                w <= 64,
                cap <= 2 * (maxlen as int) + 1,
                w > 0 ==> two_pow((w - 1) as nat) < maxlen,
            decreases 2 * (maxlen as int) + 1 - cap,
        {
            proof {
                if w >= 64 {
                    lemma_two_pow_mono(64, w as nat);
                    lemma_two_pow_64();
                }
            }
            cap = cap * 2;
            w = w + 1;
        }
        let mut c = ArithCircuit { circuit: clean, curr_layer: 0, num_bits: w, modulus };
        assert(c.layers() == cv);
        assert(is_bit_width(cv, w as nat)) by {
            assert forall|i2: int| 0 <= i2 < cv.len() implies (#[trigger] cv[i2]).len() <= two_pow(w as nat) by {
                assert(lv[i2].len() <= maxlen);
            }
            if w > 0 {
                let k2 = choose|k2: int| 0 <= k2 < n_layers && (#[trigger] lv[k2]).len() == maxlen;
                assert(cv[k2].len() == maxlen);
            }
        }
        c.evaluate_circuit();
        proof {
            let fl = c.layers();
            assert(same_wiring(lv, fl));
            assert(lv.last() == layers@.last()@);
            assert forall|j: int| 0 <= j < fl.last().len() implies (#[trigger] fl.last()[j]).value
                == layers@.last()@[j].value % modulus by {
                assert(fl[n_layers - 1][j].value == cv[n_layers - 1][j].value);
            }
        }
        Ok(c)
    }

    /// Overwrites the value of gate `index` of `layer`, leaving every other
    /// value, the wiring and the cursor as they are.
    pub fn set_gate_val(&mut self, layer: usize, index: usize, value: u64)
        requires
            old(self).wf(),
            layer < old(self).layers().len(),
            index < old(self).layers()[layer as int].len(),
            value < old(self).modulus,
        ensures
            final(self).wf(),
            final(self).layers() == old(self).layers().update(
                layer as int,
                old(self).layers()[layer as int].update(
                    index as int,
                    Gate { value, ..old(self).layers()[layer as int][index as int] },
                ),
            ),
            final(self).num_bits == old(self).num_bits,
            final(self).modulus == old(self).modulus,
            final(self).cursor() == old(self).cursor(),
    {
        let ghost before = self.layers();
        let mut lay = self.circuit[layer].clone();
        assert(lay@ == before[layer as int]);
        let g = lay[index];
        lay.set(index, Gate { w0: g.w0, w1: g.w1, is_add: g.is_add, value });
        self.circuit.set(layer, lay);
        proof {
            let after = self.layers();
            assert(after =~= before.update(layer as int, lay@));
            assert(same_wiring(before, after));
            lemma_same_wiring(before, after, self.num_bits as nat);
            assert forall|i2: int, j2: int|
                0 <= i2 < after.len() && 0 <= j2 < after[i2].len() implies (#[trigger] after[i2][j2]).value < self.modulus by {
                if i2 != layer || j2 != index {
                    assert(after[i2][j2] == before[i2][j2]);
                }
            }
        }
    }

    /// On a well-formed circuit the extension of a layer agrees with the
    /// layer: at the label of gate `j` it is the value stored at gate `j`.
    pub proof fn lemma_layer_mle_agrees(&self, layer: int, j: int)
        requires
            self.wf(),
            0 <= layer < self.layers().len(),
            0 <= j < self.layers()[layer].len(),
        ensures
            mle_eval(
                layer_values(self.layers()[layer]),
                label_bits(j as nat, self.num_bits as nat),
                self.num_bits as nat,
                self.modulus as int,
            ) == self.layers()[layer][j].value,
    {
        let vals = layer_values(self.layers()[layer]);
        assert forall|k: int| 0 <= k < vals.len() implies #[trigger] vals[k] < self.modulus by {
            assert(self.layers()[layer][k].value < self.modulus);
        }
        lemma_mle_agrees(vals, self.num_bits as nat, j as nat, self.modulus as int);
    }

    /// Computes every gate from the layer below, from the inputs upwards.
    pub fn evaluate_circuit(&mut self)
        requires
            old(self).wf(),
        ensures
            final(self).wf(),
            same_structure(old(self).layers(), final(self).layers()),
            is_evaluated(final(self).layers(), final(self).modulus as int),
            final(self).num_bits == old(self).num_bits,
            final(self).modulus == old(self).modulus,
            final(self).cursor() == old(self).cursor(),
    {
        let p = self.modulus;
        let ghost orig = self.layers();
        let n_layers = self.circuit.len();
        let mut i: usize = n_layers - 1;
        while i > 0
            invariant
                self.wf(),
                self.modulus == p,
                self.num_bits == old(self).num_bits,
                self.cursor() == old(self).cursor(),
                n_layers == self.layers().len(),
                orig == old(self).layers(),
                i < n_layers,
                same_structure(orig, self.layers()),
                forall|i2: int, j: int|
                    i <= i2 < n_layers - 1 && 0 <= j < self.layers()[i2].len() ==> (
                    #[trigger] self.layers()[i2][j]).value == gate_output(
                        self.layers()[i2][j],
                        self.layers()[i2 + 1],
                        p as int,
                    ),
            decreases i,
        {
            i = i - 1;
            let ghost before = self.layers();
            let layer_len = self.circuit[i].len();
            let mut new_layer: Vec<Gate> = Vec::new();
            let mut j: usize = 0;
            while j < layer_len
                invariant
                    self.wf(),
                    self.modulus == p,
                    self.layers() == before,
                    i + 1 < n_layers,
                    n_layers == before.len(),
                    layer_len == before[i as int].len(),
                    j <= layer_len,
                    new_layer@.len() == j,
                    forall|j2: int|
                        0 <= j2 < j ==> {
                            &&& (#[trigger] new_layer@[j2]).value == gate_output(
                                before[i as int][j2],
                                before[i + 1],
                                p as int,
                            )
                            &&& new_layer@[j2].w0 == before[i as int][j2].w0
                            &&& new_layer@[j2].w1 == before[i as int][j2].w1
                            &&& new_layer@[j2].is_add == before[i as int][j2].is_add
                            &&& new_layer@[j2].value < p
                        },
                decreases layer_len - j,
            {
                let g = self.circuit[i][j];
                assert(before[i as int][j as int] == g);
                let a = self.circuit[i + 1][g.w0].value;
                let b = self.circuit[i + 1][g.w1].value;
                let v = if g.is_add {
                    add_mod(a, b, p)
                } else {
                    mul_mod(a, b, p)
                };
                new_layer.push(Gate { w0: g.w0, w1: g.w1, is_add: g.is_add, value: v });
                j = j + 1;
            }
            self.circuit[i] = new_layer;
            proof {
                let after = self.layers();
                assert(after =~= before.update(i as int, new_layer@));
                assert(same_wiring(before, after));
                lemma_same_wiring(before, after, self.num_bits as nat);
                assert forall|i2: int, j2: int|
                    0 <= i2 < after.len() && 0 <= j2 < after[i2].len() implies (#[trigger] after[i2][j2]).value < p by {
                    if i2 != i {
                        assert(after[i2][j2] == before[i2][j2]);
                    }
                }
            }
        }
    }

    /// The input layer.
    pub fn get_inputs(&self) -> (r: &Vec<Gate>)
        requires
            self.wf(),
        ensures
            r@ == self.layers().last(),
    {
        &self.circuit[self.circuit.len() - 1]
    }

    /// Layer `i`, counted from the outputs.
    pub fn get_layer(&self, i: usize) -> (r: &Vec<Gate>)
        requires
            i < self.layers().len(),
        ensures
            r@ == self.layers()[i as int],
    {
        &self.circuit[i]
    }

    /// Puts the cursor on `layer`, wrapping around the number of layers.
    pub fn set_curr_layer(&mut self, layer: usize)
        requires
            old(self).wf(),
        ensures
            final(self).wf(),
            final(self).layers() == old(self).layers(),
            final(self).num_bits == old(self).num_bits,
            final(self).modulus == old(self).modulus,
            final(self).cursor() == layer as nat % old(self).layers().len(),
    {
        self.curr_layer = layer % self.circuit.len();
    }

    /// The layer above the cursor: the one whose gates read the cursor's layer.
    pub fn get_last_layer(&self) -> (r: &Vec<Gate>)
        requires
            self.wf(),
            self.cursor() >= 1,
        ensures
            r@ == self.layers()[self.cursor() - 1],
    {
        &self.circuit[self.curr_layer - 1]
    }

    /// The layer under the cursor.
    pub fn get_this_layer(&self) -> (r: &Vec<Gate>)
        requires
            self.wf(),
        ensures
            r@ == self.layers()[self.cursor() as int],
    {
        &self.circuit[self.curr_layer]
    }

    /// The number of layers above the inputs.
    pub fn num_layers(&self) -> (r: usize)
        requires
            self.wf(),
        ensures
            r == self.layers().len() - 1,
    {
        self.circuit.len() - 1
    }

    /// Moves the cursor one layer down, wrapping to the outputs after the inputs.
    pub fn next_layer(&mut self)
        requires
            old(self).wf(),
        ensures
            final(self).wf(),
            final(self).layers() == old(self).layers(),
            final(self).num_bits == old(self).num_bits,
            final(self).modulus == old(self).modulus,
            final(self).cursor() == (old(self).cursor() + 1) % old(self).layers().len(),
    {
        let len = self.circuit.len();
        if self.curr_layer + 1 == len {
            self.curr_layer = 0;
        } else {
            self.curr_layer = self.curr_layer + 1;
        }
        proof {
            if old(self).cursor() + 1 < len {
                vstd::arithmetic::div_mod::lemma_small_mod((old(self).cursor() + 1) as nat, len as nat);
            } else {
                vstd::arithmetic::div_mod::lemma_mod_self_0(len as int);
            }
        }
    }

    /// The number of gates in the layer under the cursor.
    pub fn num_gate_at_layer(&self) -> (r: usize)
        requires
            self.wf(),
        ensures
            r == self.layers()[self.cursor() as int].len(),
    {
        self.circuit[self.curr_layer].len()
    }

    /// The value of gate `gate_lbl` of the layer under the cursor.
    pub fn get_gate_val(&self, gate_lbl: usize) -> (r: u64)
        requires
            self.wf(),
            gate_lbl < self.layers()[self.cursor() as int].len(),
        ensures
            r == self.layers()[self.cursor() as int][gate_lbl as int].value,
    {
        self.circuit[self.curr_layer][gate_lbl].value
    }

    /// The inputs of gate `gate_lbl` of the layer under the cursor.
    pub fn get_gate_wiring(&self, gate_lbl: usize) -> (r: (usize, usize))
        requires
            self.wf(),
            gate_lbl < self.layers()[self.cursor() as int].len(),
        ensures
            r == (
                self.layers()[self.cursor() as int][gate_lbl as int].w0,
                self.layers()[self.cursor() as int][gate_lbl as int].w1,
            ),
    {
        let gate = &self.circuit[self.curr_layer][gate_lbl];
        (gate.w0, gate.w1)
    }

    /// Whether gate `gate_lbl` of the layer above the cursor adds.
    pub fn is_gate_add(&self, gate_lbl: usize) -> (r: bool)
        requires
            self.wf(),
            self.cursor() >= 1,
            gate_lbl < self.layers()[self.cursor() - 1].len(),
        ensures
            r == self.layers()[self.cursor() - 1][gate_lbl as int].is_add,
    {
        self.circuit[self.curr_layer - 1][gate_lbl].is_add
    }

    /// The extension of the values of `layer` at `query_gate`.
    pub fn layer_mle(&self, layer: usize, query_gate: &[u64]) -> (r: u64)
        requires
            self.wf(),
            layer < self.layers().len(),
            query_gate@.len() == self.num_bits,
            all_reduced(query_gate@, self.modulus),
        ensures
            r == mle_eval(
                layer_values(self.layers()[layer as int]),
                query_gate@,
                self.num_bits as nat,
                self.modulus as int,
            ),
            r < self.modulus,
    {
        let lay = &self.circuit[layer];
        let mut vals: Vec<u64> = Vec::new();
        let mut j: usize = 0;
        while j < lay.len()
            invariant
                self.wf(),
                layer < self.layers().len(),
                lay@ == self.layers()[layer as int],
                j <= lay@.len(),
                vals@ == layer_values(lay@).subrange(0, j as int),
            decreases lay@.len() - j,
        {
            vals.push(lay[j].value);
            j = j + 1;
            assert(vals@ =~= layer_values(lay@).subrange(0, j as int));
        }
        assert(vals@ =~= layer_values(lay@));
        mle_values(&vals, query_gate, self.num_bits, self.modulus)
    }

    /// The extension of the values of the layer under the cursor at `query_gate`.
    pub fn mle_gate_val(&self, query_gate: &[u64]) -> (r: u64)
        requires
            self.wf(),
            query_gate@.len() == self.num_bits,
            all_reduced(query_gate@, self.modulus),
        ensures
            r == mle_eval(
                layer_values(self.layers()[self.cursor() as int]),
                query_gate@,
                self.num_bits as nat,
                self.modulus as int,
            ),
    {
        self.layer_mle(self.curr_layer, query_gate)
    }

    /// The extension of the `add` (or, with `add` false, `mult`) wiring
    /// predicate of `layer` at `(query_gate, w0, w1)`.
    pub fn layer_wiring(&self, layer: usize, query_gate: &[u64], w0: &[u64], w1: &[u64], add: bool) -> (r: u64)
        requires
            self.wf(),
            layer + 1 < self.layers().len(),
            query_gate@.len() == self.num_bits,
            w0@.len() == self.num_bits,
            w1@.len() == self.num_bits,
            all_reduced(query_gate@, self.modulus),
            all_reduced(w0@, self.modulus),
            all_reduced(w1@, self.modulus),
        ensures
            r == wiring_eval(
                self.layers()[layer as int],
                query_gate@ + w0@ + w1@,
                self.num_bits as nat,
                add,
                self.modulus as int,
            ),
            r < self.modulus,
    {
        let p = self.modulus;
        let n = self.num_bits;
        let lay = &self.circuit[layer];
        let mut query_lbl: Vec<u64> = Vec::new();
        query_lbl.extend_from_slice(query_gate);
        query_lbl.extend_from_slice(w0);
        query_lbl.extend_from_slice(w1);
        let ghost pt = query_gate@ + w0@ + w1@;
        assert(query_lbl@ =~= pt);
        let mut val: u64 = 0;
        let mut i: usize = 0;
        while i < lay.len()
            invariant
                self.wf(),
                p == self.modulus,
                n == self.num_bits,
                lay@ == self.layers()[layer as int],
                query_lbl@ == pt,
                pt.len() == 3 * n,
                all_reduced(pt, p),
                i <= lay@.len(),
                val == wiring_prefix(lay@, pt, n as nat, add, i as nat, p as int),
                val < p,
            decreases lay@.len() - i,
        {
            let gate = lay[i];
            if gate.is_add() == add {
                let conn_gates = gate.get_wiring();
                let mut combined: Vec<u64> = into_bit_arr(i, n);
                let b0 = into_bit_arr(conn_gates.0, n);
                let b1 = into_bit_arr(conn_gates.1, n);
                combined.extend_from_slice(b0.as_slice());
                combined.extend_from_slice(b1.as_slice());
                proof {
                    lemma_label_len(i as nat, n as nat);
                    lemma_label_len(conn_gates.0 as nat, n as nat);
                    lemma_label_len(conn_gates.1 as nat, n as nat);
                    assert(combined@ =~= combined_label(gate, i as nat, n as nat));
                }
                let e = mle_interpolate(combined.as_slice(), query_lbl.as_slice(), p);
                val = add_mod(val, e, p);
            }
            i = i + 1;
        }
        val
    }

    /// The wiring extension of the layer above the cursor at `(query_gate, w0, w1)`.
    pub fn mle_wiring(&self, query_gate: &[u64], w0: &[u64], w1: &[u64], add: bool) -> (r: u64)
        requires
            self.wf(),
            self.cursor() >= 1,
            query_gate@.len() == self.num_bits,
            w0@.len() == self.num_bits,
            w1@.len() == self.num_bits,
            all_reduced(query_gate@, self.modulus),
            all_reduced(w0@, self.modulus),
            all_reduced(w1@, self.modulus),
        ensures
            r == wiring_eval(
                self.layers()[self.cursor() - 1],
                query_gate@ + w0@ + w1@,
                self.num_bits as nat,
                add,
                self.modulus as int,
            ),
    {
        self.layer_wiring(self.curr_layer - 1, query_gate, w0, w1, add)
    }
}

} // verus!
