//! Arithmetic circuits over a prime field: gate trees, their evaluation, and
//! the operands of their multiplication gates.

use vstd::prelude::*;

verus! {

/// A gate of an arithmetic circuit, with the gates that feed it.
#[derive(Debug)]
pub enum Gate {
    /// A constant.
    Const { val: u64 },
    /// The input with the index `var`.
    Input { var: usize },
    /// The sum of two gates.
    Add { in_l: Box<Gate>, in_r: Box<Gate> },
    /// The product of two gates.
    Mul { in_l: Box<Gate>, in_r: Box<Gate> },
}

impl Clone for Gate {
    /// A copy of the whole tree.
    fn clone(&self) -> (res: Self)
        ensures
            res == *self,
        decreases self,
    {
        match self {
            Gate::Const { val } => Gate::Const { val: *val },
            Gate::Input { var } => Gate::Input { var: *var },
            Gate::Add { in_l, in_r } => Gate::Add {
                in_l: Box::new((&**in_l).clone()),
                in_r: Box::new((&**in_r).clone()),
            },
            Gate::Mul { in_l, in_r } => Gate::Mul {
                in_l: Box::new((&**in_l).clone()),
                in_r: Box::new((&**in_r).clone()),
            },
        }
    }
}

impl Gate {
    /// Whether every input that this gate reads has an index below `n`.
    pub open spec fn in_bounds(&self, n: nat) -> bool
        decreases self,
    {
        match self {
            Gate::Const { val } => true,
            Gate::Input { var } => *var < n,
            Gate::Add { in_l, in_r } => in_l.in_bounds(n) && in_r.in_bounds(n),
            Gate::Mul { in_l, in_r } => in_l.in_bounds(n) && in_r.in_bounds(n),
        }
    }

    /// The value of this gate on `inputs`: constants and inputs as they are,
    /// sums and products reduced modulo `q`.
    pub open spec fn spec_eval(&self, q: u64, inputs: Seq<u64>) -> u64
        decreases self,
    {
        match self {
            Gate::Const { val } => *val,
            Gate::Input { var } => inputs[*var as int],
            Gate::Add { in_l, in_r } => ((in_l.spec_eval(q, inputs) + in_r.spec_eval(q, inputs))
                % (q as int)) as u64,
            Gate::Mul { in_l, in_r } => ((in_l.spec_eval(q, inputs) * in_r.spec_eval(q, inputs))
                % (q as int)) as u64,
        }
    }

    /// The left operands of the multiplication gates, depth first and left
    /// first, a gate's own operand after those of the gates that feed it.
    pub open spec fn spec_left_wires(&self, q: u64, inputs: Seq<u64>) -> Seq<u64>
        decreases self,
    {
        match self {
            Gate::Const { val } => Seq::empty(),
            Gate::Input { var } => Seq::empty(),
            Gate::Add { in_l, in_r } => in_l.spec_left_wires(q, inputs) + in_r.spec_left_wires(
                q,
                inputs,
            ),
            Gate::Mul { in_l, in_r } => (in_l.spec_left_wires(q, inputs) + in_r.spec_left_wires(
                q,
                inputs,
            )).push(in_l.spec_eval(q, inputs)),
        }
    }

    /// The right operands of the multiplication gates, in the order of
    /// `spec_left_wires`.
    pub open spec fn spec_right_wires(&self, q: u64, inputs: Seq<u64>) -> Seq<u64>
        decreases self,
    {
        match self {
            Gate::Const { val } => Seq::empty(),
            Gate::Input { var } => Seq::empty(),
            Gate::Add { in_l, in_r } => in_l.spec_right_wires(q, inputs) + in_r.spec_right_wires(
                q,
                inputs,
            ),
            Gate::Mul { in_l, in_r } => (in_l.spec_right_wires(q, inputs) + in_r.spec_right_wires(
                q,
                inputs,
            )).push(in_r.spec_eval(q, inputs)),
        }
    }

    /// The number of addition and multiplication gates in the tree.
    pub open spec fn spec_count_gates(&self) -> nat
        decreases self,
    {
        match self {
            Gate::Const { val } => 0,
            Gate::Input { var } => 0,
            Gate::Add { in_l, in_r } => in_l.spec_count_gates() + in_r.spec_count_gates() + 1,
            Gate::Mul { in_l, in_r } => in_l.spec_count_gates() + in_r.spec_count_gates() + 1,
        }
    }

    /// The number of multiplication gates in the tree.
    pub open spec fn spec_count_muls(&self) -> nat
        decreases self,
    {
        match self {
            Gate::Const { val } => 0,
            Gate::Input { var } => 0,
            Gate::Add { in_l, in_r } => in_l.spec_count_muls() + in_r.spec_count_muls(),
            Gate::Mul { in_l, in_r } => in_l.spec_count_muls() + in_r.spec_count_muls() + 1,
        }
    }

    /// There is one left and one right operand for each multiplication gate,
    /// and no more multiplication gates than gates.
    pub proof fn lemma_wire_counts(&self, q: u64, inputs: Seq<u64>)
        ensures
            self.spec_left_wires(q, inputs).len() == self.spec_count_muls(),
            self.spec_right_wires(q, inputs).len() == self.spec_count_muls(),
            self.spec_count_muls() <= self.spec_count_gates(),
        decreases self,
    {
        match self {
            Gate::Const { val } => {},
            Gate::Input { var } => {},
            Gate::Add { in_l, in_r } => {
                in_l.lemma_wire_counts(q, inputs);
                in_r.lemma_wire_counts(q, inputs);
            },
            Gate::Mul { in_l, in_r } => {
                in_l.lemma_wire_counts(q, inputs);
                in_r.lemma_wire_counts(q, inputs);
            },
        }
    }

    /// Whether every input that this gate reads has an index below `n`.
    pub fn fits(&self, n: usize) -> (b: bool)
        ensures
            b == self.in_bounds(n as nat),
        decreases self,
    {
        match self {
            Gate::Const { val } => true,
            Gate::Input { var } => *var < n,
            Gate::Add { in_l, in_r } => in_l.fits(n) && in_r.fits(n),
            Gate::Mul { in_l, in_r } => in_l.fits(n) && in_r.fits(n),
        }
    }

    /// Evaluates this gate on `inputs` modulo `q`.
    pub fn eval(&self, q: u64, inputs: &Vec<u64>) -> (out: u64)
        requires
            q > 0,
            self.in_bounds(inputs@.len()),
        ensures
            out == self.spec_eval(q, inputs@),
        decreases self,
    {
        match self {
            Gate::Const { val } => *val,
            Gate::Input { var } => inputs[*var],
            Gate::Add { in_l, in_r } => {
                let l: u64 = in_l.eval(q, inputs);
                let r: u64 = in_r.eval(q, inputs);
                crate::field::add_mod(l, r, q)
            },
            Gate::Mul { in_l, in_r } => {
                let l: u64 = in_l.eval(q, inputs);
                let r: u64 = in_r.eval(q, inputs);
                crate::field::mul_mod(l, r, q)
            },
        }
    }

    /// Evaluates this gate and appends the operands of its multiplication
    /// gates to `us` and `vs`.
    fn collect_wires(&self, q: u64, inputs: &Vec<u64>, us: &mut Vec<u64>, vs: &mut Vec<u64>) -> (out:
        u64)
        requires
            q > 0,
            self.in_bounds(inputs@.len()),
        ensures
            out == self.spec_eval(q, inputs@),
            final(us)@ == old(us)@ + self.spec_left_wires(q, inputs@),
            final(vs)@ == old(vs)@ + self.spec_right_wires(q, inputs@),
        decreases self,
    {
        match self {
            Gate::Const { val } => {
                assert(us@ + Seq::<u64>::empty() =~= us@);
                assert(vs@ + Seq::<u64>::empty() =~= vs@);
                *val
            },
            Gate::Input { var } => {
                assert(us@ + Seq::<u64>::empty() =~= us@);
                assert(vs@ + Seq::<u64>::empty() =~= vs@);
                inputs[*var]
            },
            Gate::Add { in_l, in_r } => {
                let l: u64 = in_l.collect_wires(q, inputs, us, vs);
                let r: u64 = in_r.collect_wires(q, inputs, us, vs);
                proof {
                    assert(us@ =~= old(us)@ + self.spec_left_wires(q, inputs@));
                    assert(vs@ =~= old(vs)@ + self.spec_right_wires(q, inputs@));
                }
                crate::field::add_mod(l, r, q)
            },
            Gate::Mul { in_l, in_r } => {
                let l: u64 = in_l.collect_wires(q, inputs, us, vs);
                let r: u64 = in_r.collect_wires(q, inputs, us, vs);
                us.push(l);
                vs.push(r);
                proof {
                    assert(us@ =~= old(us)@ + self.spec_left_wires(q, inputs@));
                    assert(vs@ =~= old(vs)@ + self.spec_right_wires(q, inputs@));
                }
                crate::field::mul_mod(l, r, q)
            },
        }
    }

    /// Evaluates this gate and collects, for each multiplication gate of the
    /// tree, its left operand and its right operand.
    pub fn get_wire_vals(&self, q: u64, inputs: &Vec<u64>) -> (res: (u64, (Vec<u64>, Vec<u64>)))
        requires
            q > 0,
            self.in_bounds(inputs@.len()),
        ensures
            res.0 == self.spec_eval(q, inputs@),
            res.1.0@ == self.spec_left_wires(q, inputs@),
            res.1.1@ == self.spec_right_wires(q, inputs@),
    {
        let mut us: Vec<u64> = Vec::new();
        let mut vs: Vec<u64> = Vec::new();
        let out: u64 = self.collect_wires(q, inputs, &mut us, &mut vs);
        proof {
            assert(us@ =~= self.spec_left_wires(q, inputs@));
            assert(vs@ =~= self.spec_right_wires(q, inputs@));
        }
        (out, (us, vs))
    }

    /// The number of addition and multiplication gates in the tree.
    pub fn count_gates(&self) -> (count: usize)
        requires
            self.spec_count_gates() <= usize::MAX,
        ensures
            count == self.spec_count_gates(),
        decreases self,
    {
        match self {
            Gate::Add { in_l, in_r } => {
                let l: usize = in_l.count_gates();
                let r: usize = in_r.count_gates();
                l + r + 1
            },
            Gate::Mul { in_l, in_r } => {
                let l: usize = in_l.count_gates();
                let r: usize = in_r.count_gates();
                l + r + 1
            },
            _ => 0,
        }
    }

    /// The number of multiplication gates in the tree.
    pub fn count_muls(&self) -> (count: usize)
        requires
            self.spec_count_muls() <= usize::MAX,
        ensures
            count == self.spec_count_muls(),
        decreases self,
    {
        match self {
            Gate::Add { in_l, in_r } => {
                let l: usize = in_l.count_muls();
                let r: usize = in_r.count_muls();
                l + r
            },
            Gate::Mul { in_l, in_r } => {
                let l: usize = in_l.count_muls();
                let r: usize = in_r.count_muls();
                l + r + 1
            },
            _ => 0,
        }
    }
}

/// The left operands of the multiplication gates of `gates`, gate by gate.
pub open spec fn left_wires_of(gates: Seq<Gate>, q: u64, inputs: Seq<u64>) -> Seq<u64>
    decreases gates.len(),
{
    if gates.len() == 0 {
        Seq::empty()
    } else {
        left_wires_of(gates.drop_last(), q, inputs) + gates.last().spec_left_wires(q, inputs)
    }
}

/// The right operands of the multiplication gates of `gates`, gate by gate.
pub open spec fn right_wires_of(gates: Seq<Gate>, q: u64, inputs: Seq<u64>) -> Seq<u64>
    decreases gates.len(),
{
    if gates.len() == 0 {
        Seq::empty()
    } else {
        right_wires_of(gates.drop_last(), q, inputs) + gates.last().spec_right_wires(q, inputs)
    }
}

/// The number of addition and multiplication gates in `gates`.
pub open spec fn count_gates_of(gates: Seq<Gate>) -> nat
    decreases gates.len(),
{
    if gates.len() == 0 {
        0
    } else {
        count_gates_of(gates.drop_last()) + gates.last().spec_count_gates()
    }
}

/// The number of multiplication gates in `gates`.
pub open spec fn count_muls_of(gates: Seq<Gate>) -> nat
    decreases gates.len(),
{
    if gates.len() == 0 {
        0
    } else {
        count_muls_of(gates.drop_last()) + gates.last().spec_count_muls()
    }
}

/// The counts of a prefix of `gates` are no more than those of `gates`.
pub proof fn lemma_counts_monotone(gates: Seq<Gate>, i: int)
    requires
        0 <= i <= gates.len(),
    ensures
        count_gates_of(gates.take(i)) <= count_gates_of(gates),
        count_muls_of(gates.take(i)) <= count_muls_of(gates),
    decreases gates.len(),
{
    if i == gates.len() {
        assert(gates.take(i) =~= gates);
    } else {
        assert(gates.drop_last().take(i) =~= gates.take(i));
        lemma_counts_monotone(gates.drop_last(), i);
    }
}

/// There is one left and one right operand for each multiplication gate of
/// `gates`, and no more multiplication gates than gates.
pub proof fn lemma_wire_counts_of(gates: Seq<Gate>, q: u64, inputs: Seq<u64>)
    ensures
        left_wires_of(gates, q, inputs).len() == count_muls_of(gates),
        right_wires_of(gates, q, inputs).len() == count_muls_of(gates),
        count_muls_of(gates) <= count_gates_of(gates),
    decreases gates.len(),
{
    if gates.len() > 0 {
        lemma_wire_counts_of(gates.drop_last(), q, inputs);
        gates.last().lemma_wire_counts(q, inputs);
    }
}

/// A circuit: the gates whose values are its outputs, and the modulus of the
/// field that it computes in.
#[derive(Debug)]
pub struct Circuit {
    pub out_gates: Vec<Gate>,
    pub modulus: u64,
}

impl Clone for Circuit {
    /// A copy with the same gates and the same modulus.
    fn clone(&self) -> (res: Self)
        ensures
            res.out_gates@ == self.out_gates@,
            res.modulus == self.modulus,
    {
        let mut gates: Vec<Gate> = Vec::new();
        let mut i: usize = 0;
        while i < self.out_gates.len()
            invariant
                i <= self.out_gates@.len(),
                gates@ == self.out_gates@.take(i as int),
            decreases self.out_gates@.len() - i,
        {
            gates.push(self.out_gates[i].clone());
            proof {
                assert(gates@ =~= self.out_gates@.take(i + 1));
            }
            i += 1;
        }
        proof {
            assert(gates@ =~= self.out_gates@);
        }
        Circuit { out_gates: gates, modulus: self.modulus }
    }
}

impl Circuit {
    /// Whether every input that the circuit reads has an index below `n`.
    pub open spec fn in_bounds(&self, n: nat) -> bool {
        forall|i: int| 0 <= i < self.out_gates@.len() ==> (#[trigger] self.out_gates@[i]).in_bounds(n)
    }

    /// The outputs of the circuit on `inputs`, one for each output gate.
    pub open spec fn spec_eval(&self, inputs: Seq<u64>) -> Seq<u64> {
        Seq::new(
            self.out_gates@.len(),
            |i: int| self.out_gates@[i].spec_eval(self.modulus, inputs),
        )
    }

    /// The left operands of all multiplication gates, output gate by output
    /// gate.
    pub open spec fn spec_left_wires(&self, inputs: Seq<u64>) -> Seq<u64> {
        left_wires_of(self.out_gates@, self.modulus, inputs)
    }

    /// The right operands of all multiplication gates, in the order of
    /// `spec_left_wires`.
    pub open spec fn spec_right_wires(&self, inputs: Seq<u64>) -> Seq<u64> {
        right_wires_of(self.out_gates@, self.modulus, inputs)
    }

    /// The number of addition and multiplication gates of the circuit.
    pub open spec fn spec_count_gates(&self) -> nat {
        count_gates_of(self.out_gates@)
    }

    /// The number of multiplication gates of the circuit.
    pub open spec fn spec_count_muls(&self) -> nat {
        count_muls_of(self.out_gates@)
    }

    /// Whether every input that the circuit reads has an index below `n`.
    pub fn fits(&self, n: usize) -> (b: bool)
        ensures
            b == self.in_bounds(n as nat),
    {
        let mut i: usize = 0;
        while i < self.out_gates.len()
            invariant
                i <= self.out_gates@.len(),
                forall|k: int| 0 <= k < i ==> (#[trigger] self.out_gates@[k]).in_bounds(n as nat),
            decreases self.out_gates@.len() - i,
        {
            if !self.out_gates[i].fits(n) {
                return false;
            }
            i += 1;
        }
        true
    }

    /// Evaluates every output gate on `inputs`.
    pub fn eval(&self, inputs: &Vec<u64>) -> (outs: Vec<u64>)
        requires
            self.modulus > 0,
            self.in_bounds(inputs@.len()),
        ensures
            outs@ == self.spec_eval(inputs@),
    {
        let mut outs: Vec<u64> = Vec::new();
        let mut i: usize = 0;
        while i < self.out_gates.len()
            invariant
                self.modulus > 0,
                self.in_bounds(inputs@.len()),
                i <= self.out_gates@.len(),
                outs@.len() == i,
                forall|k: int|
                    0 <= k < i ==> outs@[k] == self.out_gates@[k].spec_eval(self.modulus, inputs@),
            decreases self.out_gates@.len() - i,
        {
            outs.push(self.out_gates[i].eval(self.modulus, inputs));
            i += 1;
        }
        proof {
            assert(outs@ =~= self.spec_eval(inputs@));
        }
        outs
    }

    /// Evaluates every output gate and collects the left and the right
    /// operand of each multiplication gate, output gate by output gate.
    pub fn get_wire_vals(&self, inputs: &Vec<u64>) -> (res: (Vec<u64>, (Vec<u64>, Vec<u64>)))
        requires
            self.modulus > 0,
            self.in_bounds(inputs@.len()),
        ensures
            res.0@ == self.spec_eval(inputs@),
            res.1.0@ == self.spec_left_wires(inputs@),
            res.1.1@ == self.spec_right_wires(inputs@),
    {
        let mut outs: Vec<u64> = Vec::new();
        let mut uss: Vec<u64> = Vec::new();
        let mut vss: Vec<u64> = Vec::new();
        let mut i: usize = 0;
        while i < self.out_gates.len()
            invariant
                self.modulus > 0,
                self.in_bounds(inputs@.len()),
                i <= self.out_gates@.len(),
                outs@.len() == i,
                forall|k: int|
                    0 <= k < i ==> outs@[k] == self.out_gates@[k].spec_eval(self.modulus, inputs@),
                uss@ == left_wires_of(self.out_gates@.take(i as int), self.modulus, inputs@),
                vss@ == right_wires_of(self.out_gates@.take(i as int), self.modulus, inputs@),
            decreases self.out_gates@.len() - i,
        {
            let out: u64 = self.out_gates[i].collect_wires(
                self.modulus,
                inputs,
                &mut uss,
                &mut vss,
            );
            outs.push(out);
            proof {
                assert(self.out_gates@.take(i + 1).drop_last() =~= self.out_gates@.take(i as int));
            }
            i += 1;
        }
        proof {
            assert(outs@ =~= self.spec_eval(inputs@));
            assert(self.out_gates@.take(i as int) =~= self.out_gates@);
        }
        (outs, (uss, vss))
    }

    /// The number of addition and multiplication gates of the circuit.
    pub fn count_gates(&self) -> (count: usize)
        requires
            self.spec_count_gates() <= usize::MAX,
        ensures
            count == self.spec_count_gates(),
    {
        let mut count: usize = 0;
        let mut i: usize = 0;
        while i < self.out_gates.len()
            invariant
                self.spec_count_gates() <= usize::MAX,
                i <= self.out_gates@.len(),
                count == count_gates_of(self.out_gates@.take(i as int)),
            decreases self.out_gates@.len() - i,
        {
            proof {
                assert(self.out_gates@.take(i + 1).drop_last() =~= self.out_gates@.take(i as int));
                lemma_counts_monotone(self.out_gates@, i + 1);
            }
            count = count + self.out_gates[i].count_gates();
            i += 1;
        }
        proof {
            assert(self.out_gates@.take(i as int) =~= self.out_gates@);
        }
        count
    }

    /// The number of multiplication gates of the circuit.
    pub fn count_muls(&self) -> (count: usize)
        requires
            self.spec_count_muls() <= usize::MAX,
        ensures
            count == self.spec_count_muls(),
    {
        let mut count: usize = 0;
        let mut i: usize = 0;
        while i < self.out_gates.len()
            invariant
                self.spec_count_muls() <= usize::MAX,
                i <= self.out_gates@.len(),
                count == count_muls_of(self.out_gates@.take(i as int)),
            decreases self.out_gates@.len() - i,
        {
            proof {
                assert(self.out_gates@.take(i + 1).drop_last() =~= self.out_gates@.take(i as int));
                lemma_counts_monotone(self.out_gates@, i + 1);
            }
            count = count + self.out_gates[i].count_muls();
            i += 1;
        }
        proof {
            assert(self.out_gates@.take(i as int) =~= self.out_gates@);
        }
        count
    }
}

/// A gate that tests input `i` for being a bit: `x * (x - 1)`, which is
/// zero modulo a prime `q` for 0 and 1 only.
pub open spec fn spec_bit_gate(i: usize, q: u64) -> Gate {
    Gate::Mul {
        in_l: Box::new(Gate::Input { var: i }),
        in_r: Box::new(
            Gate::Add {
                in_l: Box::new(Gate::Input { var: i }),
                in_r: Box::new(Gate::Const { val: (q - 1) as u64 }),
            },
        ),
    }
}

/// The output gates of the circuit that tests each of `l` inputs for being
/// a bit.
pub open spec fn spec_bitvector_gates(q: u64, l: nat) -> Seq<Gate> {
    Seq::new(l, |i: int| spec_bit_gate(i as usize, q))
}

/// The value of the bit test on `x`: `x * (x - 1)` modulo `q`.
pub open spec fn spec_bit_value(x: u64, q: u64) -> u64 {
    ((x * (((x + (q - 1)) % (q as int)) as u64)) % (q as int)) as u64
}

/// The circuit for `l` inputs has one multiplication gate and two gates in
/// all for each input, and reads no input beyond them.
pub proof fn lemma_bitvector_shape(q: u64, l: nat)
    requires
        l <= usize::MAX,
    ensures
        count_muls_of(spec_bitvector_gates(q, l)) == l,
        count_gates_of(spec_bitvector_gates(q, l)) == 2 * l,
        forall|i: int| 0 <= i < l ==> (#[trigger] spec_bitvector_gates(q, l)[i]).in_bounds(l),
    decreases l,
{
    let gates = spec_bitvector_gates(q, l);
    if l > 0 {
        assert(gates.drop_last() =~= spec_bitvector_gates(q, (l - 1) as nat));
        lemma_bitvector_shape(q, (l - 1) as nat);
        let last = gates.last();
        assert(last == spec_bit_gate((l - 1) as usize, q));
        assert(last.spec_count_muls() == 1) by {
            reveal_with_fuel(Gate::spec_count_muls, 3);
        }
        assert(last.spec_count_gates() == 2) by {
            reveal_with_fuel(Gate::spec_count_gates, 3);
        }
    }
    assert forall|i: int| 0 <= i < l implies (#[trigger] gates[i]).in_bounds(l) by {
        reveal_with_fuel(Gate::in_bounds, 3);
    }
}

/// On the circuit for `l` inputs, the left operand of multiplication gate
/// `i` is input `i`, the right operand is input `i` less one, and output `i`
/// is the bit test of input `i`.
pub proof fn lemma_bitvector_wires(q: u64, l: nat, inputs: Seq<u64>)
    requires
        q > 0,
        l <= usize::MAX,
        l <= inputs.len(),
    ensures
        left_wires_of(spec_bitvector_gates(q, l), q, inputs) == Seq::new(l, |i: int| inputs[i]),
        right_wires_of(spec_bitvector_gates(q, l), q, inputs) == Seq::new(
            l,
            |i: int| ((inputs[i] + (q - 1)) % (q as int)) as u64,
        ),
        forall|i: int|
            0 <= i < l ==> (#[trigger] spec_bitvector_gates(q, l)[i]).spec_eval(q, inputs)
                == spec_bit_value(inputs[i], q),
    decreases l,
{
    let gates = spec_bitvector_gates(q, l);
    if l > 0 {
        assert(gates.drop_last() =~= spec_bitvector_gates(q, (l - 1) as nat));
        lemma_bitvector_wires(q, (l - 1) as nat, inputs);
        let last = gates.last();
        assert(last == spec_bit_gate((l - 1) as usize, q));
        reveal_with_fuel(Gate::spec_eval, 3);
        reveal_with_fuel(Gate::spec_left_wires, 3);
        reveal_with_fuel(Gate::spec_right_wires, 3);
        assert(last.spec_left_wires(q, inputs) =~= seq![inputs[l - 1]]);
        assert(last.spec_right_wires(q, inputs) =~= seq![((inputs[l - 1] + (q - 1)) % (
        q as int)) as u64]);
        assert(left_wires_of(gates, q, inputs) =~= Seq::new(l, |i: int| inputs[i]));
        assert(right_wires_of(gates, q, inputs) =~= Seq::new(
            l,
            |i: int| ((inputs[i] + (q - 1)) % (q as int)) as u64,
        ));
    } else {
        assert(left_wires_of(gates, q, inputs) =~= Seq::new(l, |i: int| inputs[i]));
        assert(right_wires_of(gates, q, inputs) =~= Seq::new(
            l,
            |i: int| ((inputs[i] + (q - 1)) % (q as int)) as u64,
        ));
    }
    assert forall|i: int| 0 <= i < l implies (#[trigger] gates[i]).spec_eval(q, inputs)
        == spec_bit_value(inputs[i], q) by {
        reveal_with_fuel(Gate::spec_eval, 3);
    }
}

/// The bit test accepts bits: its value on 0 and on 1 is zero.
pub proof fn lemma_bit_value_of_bit(x: u64, q: u64)
    requires
        q > 0,
        x == 0 || x == 1,
    ensures
        spec_bit_value(x, q) == 0,
{
    if x == 1 {
        vstd::arithmetic::div_mod::lemma_mod_self_0(q as int);
    }
    vstd::arithmetic::div_mod::lemma_small_mod(0, q as nat);
}

/// A gate that tests input `i` for being a bit.
fn bit_gate(i: usize, q: u64) -> (g: Gate)
    requires
        q > 0,
    ensures
        g == spec_bit_gate(i, q),
{
    let gate_0 = Gate::Add {
        in_l: Box::new(Gate::Input { var: i }),
        in_r: Box::new(Gate::Const { val: q - 1 }),
    };
    Gate::Mul { in_l: Box::new(Gate::Input { var: i }), in_r: Box::new(gate_0) }
}

/// The circuit `C(x) = x * (x - 1)` on one input.
pub fn bit_test(q: u64) -> (c: Circuit)
    requires
        q > 0,
    ensures
        c.out_gates@ == seq![spec_bit_gate(0, q)],
        c.modulus == q,
{
    let mut circs: Vec<Gate> = Vec::new();
    circs.push(bit_gate(0, q));
    proof {
        assert(circs@ =~= seq![spec_bit_gate(0, q)]);
    }
    Circuit { out_gates: circs, modulus: q }
}

/// The circuit `C(x_1, ..., x_l) = [x_1 * (x_1 - 1), ..., x_l * (x_l - 1)]`.
pub fn bitvector_test(q: u64, l: usize) -> (c: Circuit)
    requires
        q > 0,
    ensures
        c.out_gates@ == spec_bitvector_gates(q, l as nat),
        c.modulus == q,
{
    let mut circs: Vec<Gate> = Vec::new();
    let mut i: usize = 0;
    while i < l
        invariant
            q > 0,
            i <= l,
            circs@ == spec_bitvector_gates(q, i as nat),
        decreases l - i,
    {
        circs.push(bit_gate(i, q));
        proof {
            assert(circs@ =~= spec_bitvector_gates(q, (i + 1) as nat));
        }
        i += 1;
    }
    Circuit { out_gates: circs, modulus: q }
}

} // verus!
