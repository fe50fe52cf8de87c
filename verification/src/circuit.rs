use vstd::prelude::*;

verus! {

/// A boolean gate reading one or two wires.
#[derive(Debug, Copy, Clone)]
pub enum Gate {
    Inv(usize),
    And(usize, usize),
    Xor(usize, usize),
}

/// The truth value a gate computes from the current wire values.
pub open spec fn gate_value(g: Gate, vals: Seq<bool>) -> bool {
    match g {
        Gate::Inv(a) => !vals[a as int],
        Gate::And(a, b) => vals[a as int] && vals[b as int],
        Gate::Xor(a, b) => vals[a as int] != vals[b as int],
    }
}

/// Whether every wire a gate reads lies below `n`.
pub open spec fn gate_reads_in_range(g: Gate, n: int) -> bool {
    match g {
        Gate::Inv(a) => a < n,
        Gate::And(a, b) => a < n && b < n,
        Gate::Xor(a, b) => a < n && b < n,
    }
}

/// Whether every wire a gate reads is marked populated.
pub open spec fn gate_reads_populated(g: Gate, populated: Seq<bool>) -> bool {
    match g {
        Gate::Inv(a) => a < populated.len() && populated[a as int],
        Gate::And(a, b) => a < populated.len() && populated[a as int] && b < populated.len()
            && populated[b as int],
        Gate::Xor(a, b) => a < populated.len() && populated[a as int] && b < populated.len()
            && populated[b as int],
    }
}

/// Updates slot `i` of a sequence, leaving it unchanged when `i` is out
/// of range.
pub open spec fn upd<T>(s: Seq<T>, i: int, v: T) -> Seq<T> {
    if 0 <= i < s.len() {
        s.update(i, v)
    } else {
        s
    }
}

/// How many of the first `k` gates are AND gates.
pub open spec fn and_count(gates: Seq<(usize, Gate)>, k: int) -> int
    decreases k,
{
    if k <= 0 {
        0
    } else {
        and_count(gates, k - 1) + (if gates[k - 1].1 is And {
            1int
        } else {
            0int
        })
    }
}

/// A boolean circuit: wires `[0, input_length)` carry the inputs, each gate
/// writes one wire, and the last `output_length` wires carry the outputs.
#[derive(Debug, Clone)]
pub struct Circuit {
    pub input_length: usize,
    pub output_length: usize,
    pub gates: Vec<(usize, Gate)>,
}

impl Circuit {
    /// Total number of wires: one per input plus one per gate.
    pub open spec fn wire_count(self) -> int {
        self.input_length + self.gates@.len()
    }

    /// Structural well-formedness: every wire index a gate touches is in
    /// range, the output block fits, and the wire count fits the machine.
    pub open spec fn wf(self) -> bool {
        &&& forall|k: int|
            0 <= k < self.gates@.len() ==> (#[trigger] self.gates@[k]).0 < self.wire_count()
                && gate_reads_in_range(self.gates@[k].1, self.wire_count())
        &&& self.output_length <= self.wire_count()
        &&& self.wire_count() <= usize::MAX
    }

    /// Which wires are populated after the first `k` gates have run:
    /// the inputs, plus every wire an earlier gate wrote.
    pub open spec fn populated_after(self, k: int) -> Seq<bool>
        decreases k,
    {
        if k <= 0 {
            Seq::new(self.wire_count() as nat, |i: int| i < self.input_length)
        } else {
            let prev = self.populated_after(k - 1);
            upd(prev, self.gates@[k - 1].0 as int, true)
        }
    }

    /// Every gate reads only wires populated by the inputs or by an earlier
    /// gate, and writes a wire that exists.
    pub open spec fn topology_ok(self) -> bool {
        forall|k: int|
            0 <= k < self.gates@.len() ==> (#[trigger] self.gates@[k]).0 < self.wire_count()
                && gate_reads_populated(self.gates@[k].1, self.populated_after(k))
    }

    /// The wire values after the first `k` gates have run on `input`:
    /// inputs first, unwritten wires read as false.
    pub open spec fn wires_after(self, input: Seq<bool>, k: int) -> Seq<bool>
        decreases k,
    {
        if k <= 0 {
            input + Seq::new(self.gates@.len(), |i: int| false)
        } else {
            let prev = self.wires_after(input, k - 1);
            upd(prev, self.gates@[k - 1].0 as int, gate_value(self.gates@[k - 1].1, prev))
        }
    }

    /// Whether every output wire is an input or is written by some gate.
    pub open spec fn outputs_populated(self) -> bool {
        forall|j: int|
            0 <= j < self.output_length ==> self.populated_after(self.gates@.len() as int)[
                #[trigger] (self.wire_count() - self.output_length + j)
            ]
    }

    /// The circuit's output: the last `output_length` wires after all gates.
    pub open spec fn output_of(self, input: Seq<bool>) -> Seq<bool> {
        self.wires_after(input, self.gates@.len() as int).skip(
            self.wire_count() - self.output_length,
        )
    }

    /// Checks that every gate reads only wires already populated by the
    /// inputs or by an earlier gate.
    pub fn verify_topology(&self) -> (r: bool)
        requires
            self.wire_count() <= usize::MAX,
        ensures
            r == self.topology_ok(),
    {
        let n = self.input_length + self.gates.len();
        let mut populated: Vec<bool> = Vec::new();
        let mut i: usize = 0;
        while i < n
            invariant
                i <= n,
                n == self.wire_count(),
                populated@ =~= self.populated_after(0).take(i as int),
            decreases n - i,
        {
            populated.push(i < self.input_length);
            assert(populated@ =~= self.populated_after(0).take(i + 1));
            i = i + 1;
        }
        assert(populated@ =~= self.populated_after(0));

        let mut ok = true;
        let mut k: usize = 0;
        while k < self.gates.len()
            invariant
                k <= self.gates@.len(),
                n == self.wire_count(),
                populated@ == self.populated_after(k as int),
                populated@.len() == n,
                ok == forall|j: int|
                    0 <= j < k ==> (#[trigger] self.gates@[j]).0 < self.wire_count()
                        && gate_reads_populated(self.gates@[j].1, self.populated_after(j)),
            decreases self.gates@.len() - k,
        {
            let (o, g) = self.gates[k];
            let valid = match g {
                Gate::Inv(a) => a < n && populated[a],
                Gate::And(a, b) => a < n && populated[a] && b < n && populated[b],
                Gate::Xor(a, b) => a < n && populated[a] && b < n && populated[b],
            };
            let write_ok = o < n;
            if write_ok {
                populated[o] = true;
            }
            ok = ok && valid && write_ok;
            k = k + 1;
        }
        ok
    }

    /// Runs the circuit on plaintext bits: copies the inputs, executes the
    /// gates in order, and returns the last `output_length` wire values.
    pub fn evaluate(&self, input: Vec<bool>) -> (r: Vec<bool>)
        requires
            self.wf(),
            input@.len() == self.input_length,
        ensures
            r@ == self.output_of(input@),
            r@.len() == self.output_length,
    {
        let ghost input0 = input@;
        let mut values = input;
        let mut i: usize = 0;
        while i < self.gates.len()
            invariant
                i <= self.gates@.len(),
                values@ =~= (input0 + Seq::new(self.gates@.len(), |j: int| false)).take(
                    input0.len() + i,
                ),
                input0.len() == self.input_length,
            decreases self.gates@.len() - i,
        {
            values.push(false);
            assert(values@ =~= (input0 + Seq::new(self.gates@.len(), |j: int| false)).take(
                input0.len() + i + 1,
            ));
            i = i + 1;
        }
        assert(values@ =~= self.wires_after(input0, 0));

        let mut k: usize = 0;
        while k < self.gates.len()
            invariant
                k <= self.gates@.len(),
                self.wf(),
                input0.len() == self.input_length,
                values@ == self.wires_after(input0, k as int),
                values@.len() == self.wire_count(),
            decreases self.gates@.len() - k,
        {
            proof {
                lemma_wires_after_len(*self, input0, k as int);
            }
            let (o, g) = self.gates[k];
            let v = match g {
                Gate::Inv(a) => !values[a],
                Gate::And(a, b) => values[a] && values[b],
                Gate::Xor(a, b) => values[a] != values[b],
            };
            values[o] = v;
            k = k + 1;
        }

        let n = self.input_length + self.gates.len();
        let start = n - self.output_length;
        let mut out: Vec<bool> = Vec::new();
        let mut j: usize = start;
        while j < n
            invariant
                start <= j <= n,
                n == self.wire_count(),
                start == n - self.output_length,
                values@.len() == n,
                out@ =~= values@.subrange(start as int, j as int),
            decreases n - j,
        {
            out.push(values[j]);
            assert(out@ =~= values@.subrange(start as int, j as int + 1));
            j = j + 1;
        }
        proof {
            assert(out@ =~= values@.skip(start as int));
        }
        out
    }
}

/// The wire-value table always has one slot per wire.
pub proof fn lemma_wires_after_len(c: Circuit, input: Seq<bool>, k: int)
    requires
        input.len() == c.input_length,
    ensures
        c.wires_after(input, k).len() == c.wire_count(),
    decreases (if k > 0 {
        k
    } else {
        0
    }),
{
    if k > 0 {
        lemma_wires_after_len(c, input, k - 1);
    } else {
        assert(c.wires_after(input, k) == input + Seq::new(c.gates@.len(), |i: int| false));
    }
}

/// A circuit without AND gates needs no ciphertexts: its AND count is zero.
/// In particular a pure-XOR circuit, or one whose only non-XOR gates are
/// INV, garbles to an empty Half-Gates cipher list.
pub proof fn lemma_no_and_no_ciphers(gates: Seq<(usize, Gate)>, k: int)
    requires
        0 <= k <= gates.len(),
        forall|j: int| 0 <= j < gates.len() ==> !((#[trigger] gates[j]).1 is And),
    ensures
        and_count(gates, k) == 0,
    decreases k,
{
    if k > 0 {
        lemma_no_and_no_ciphers(gates, k - 1);
    }
}

/// The populated table always has one slot per wire.
pub proof fn lemma_populated_after_len(c: Circuit, k: int)
    ensures
        c.populated_after(k).len() == c.wire_count(),
    decreases (if k > 0 {
        k
    } else {
        0
    }),
{
    if k > 0 {
        lemma_populated_after_len(c, k - 1);
    }
}

} // verus!
