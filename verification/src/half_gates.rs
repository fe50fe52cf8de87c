use vstd::prelude::*;

use aes::cipher::generic_array::GenericArray;
use aes::cipher::{BlockEncrypt, NewBlockCipher};

use crate::blocks::{clone_label, get_lsb, lsb, set_lsb, xor_blocks, xor_seq, zero_block, zero_seq};
use crate::circuit::{and_count, upd, Circuit, Gate};
use crate::errors::EvalError;
use crate::garble::{encoded_views, seq_views, GarbledCircuit, GarbledDecoder, GarbledEncoder};
use crate::rng::random_bytes;

verus! {

/// What fixed-key AES-128 returns for a 16-byte block.
pub uninterp spec fn aes128_raw(key: Seq<u8>, block: Seq<u8>) -> Seq<u8>;

/// The AES-128 result as a 16-byte block.
pub open spec fn aes128_block(key: Seq<u8>, block: Seq<u8>) -> Seq<u8> {
    Seq::new(16, |i: int| aes128_raw(key, block)[i])
}

/// Relies on aes::Aes128 (`NewBlockCipher::new`, `BlockEncrypt::encrypt_block`):
/// AES-128 encryption of one 16-byte block is a 16-byte value that depends on
/// the key and the block alone.
#[verifier::external_body]
fn aes128_encrypt(key: &Vec<u8>, block: &Vec<u8>) -> (r: Vec<u8>)
    requires
        key@.len() == 16,
        block@.len() == 16,
    ensures
        r@ == aes128_raw(key@, block@),
        r@ == aes128_block(key@, block@),
        r@.len() == 16,
{
    let cipher = aes::Aes128::new(GenericArray::from_slice(key.as_slice()));
    let mut b: aes::Block = GenericArray::clone_from_slice(block.as_slice());
    cipher.encrypt_block(&mut b);
    b.as_slice().to_vec()
}

/// The views of a sequence of label pairs.
pub open spec fn pair_views(s: Seq<(Vec<u8>, Vec<u8>)>) -> Seq<(Seq<u8>, Seq<u8>)> {
    s.map_values(|p: (Vec<u8>, Vec<u8>)| (p.0@, p.1@))
}

/// Selects one label of a pair by truth value.
pub open spec fn sel(pair: (Seq<u8>, Seq<u8>), v: bool) -> Seq<u8> {
    if v {
        pair.1
    } else {
        pair.0
    }
}

/// A gate as the evaluator sees it: INV gates become label copies.
#[derive(Debug, Copy, Clone)]
pub enum GarbledGate {
    Copy(usize),
    And(usize, usize),
    Xor(usize, usize),
}

/// The evaluator's gate for a plaintext gate.
pub open spec fn garbled_gate_of(g: Gate) -> GarbledGate {
    match g {
        Gate::Inv(a) => GarbledGate::Copy(a),
        Gate::And(a, b) => GarbledGate::And(a, b),
        Gate::Xor(a, b) => GarbledGate::Xor(a, b),
    }
}

/// Whether every wire a garbled gate reads lies below `n`.
pub open spec fn ggate_reads_in_range(g: GarbledGate, n: int) -> bool {
    match g {
        GarbledGate::Copy(a) => a < n,
        GarbledGate::And(a, b) => a < n && b < n,
        GarbledGate::Xor(a, b) => a < n && b < n,
    }
}

/// How many of the first `k` garbled gates are AND gates.
pub open spec fn gand_count(gates: Seq<(usize, GarbledGate)>, k: int) -> int
    decreases k,
{
    if k <= 0 {
        0
    } else {
        gand_count(gates, k - 1) + (if gates[k - 1].1 is And {
            1int
        } else {
            0int
        })
    }
}

/// The garbler's label table before any gate runs: each input wire `i` holds
/// `(W0_i, W0_i XOR R)`, every other wire holds zero blocks.
pub open spec fn hg_base_labels(c: Circuit, r: Seq<u8>, w0: Seq<Seq<u8>>) -> Seq<
    (Seq<u8>, Seq<u8>),
> {
    Seq::new(
        c.wire_count() as nat,
        |i: int|
            if i < c.input_length {
                (w0[i], xor_seq(w0[i], r))
            } else {
                (zero_seq(16), zero_seq(16))
            },
    )
}

/// The garbler-half ciphertext of an AND gate.
pub open spec fn hg_tg(key: Seq<u8>, r: Seq<u8>, la: (Seq<u8>, Seq<u8>), lb: (Seq<u8>, Seq<u8>)) -> Seq<
    u8,
> {
    xor_seq(
        xor_seq(aes128_block(key, la.0), aes128_block(key, la.1)),
        if lsb(lb.0) {
            r
        } else {
            zero_seq(16)
        },
    )
}

/// The garbler-half share of the false output label of an AND gate.
pub open spec fn hg_w0g(key: Seq<u8>, r: Seq<u8>, la: (Seq<u8>, Seq<u8>), lb: (Seq<u8>, Seq<u8>)) -> Seq<
    u8,
> {
    xor_seq(
        aes128_block(key, la.0),
        if lsb(la.0) {
            hg_tg(key, r, la, lb)
        } else {
            zero_seq(16)
        },
    )
}

/// The evaluator-half ciphertext of an AND gate.
pub open spec fn hg_te(key: Seq<u8>, la: (Seq<u8>, Seq<u8>), lb: (Seq<u8>, Seq<u8>)) -> Seq<u8> {
    xor_seq(xor_seq(aes128_block(key, lb.0), aes128_block(key, lb.1)), la.0)
}

/// The evaluator-half share of the false output label of an AND gate.
pub open spec fn hg_w0e(key: Seq<u8>, la: (Seq<u8>, Seq<u8>), lb: (Seq<u8>, Seq<u8>)) -> Seq<u8> {
    xor_seq(
        aes128_block(key, lb.0),
        if lsb(lb.0) {
            xor_seq(hg_te(key, la, lb), la.0)
        } else {
            zero_seq(16)
        },
    )
}

/// The false output label of an AND gate: the XOR of the two half shares.
pub open spec fn hg_and_w0(
    key: Seq<u8>,
    r: Seq<u8>,
    la: (Seq<u8>, Seq<u8>),
    lb: (Seq<u8>, Seq<u8>),
) -> Seq<u8> {
    xor_seq(hg_w0g(key, r, la, lb), hg_w0e(key, la, lb))
}

/// The garbler's label table after the first `k` gates.
pub open spec fn hg_labels_after(
    c: Circuit,
    key: Seq<u8>,
    r: Seq<u8>,
    w0: Seq<Seq<u8>>,
    k: int,
) -> Seq<(Seq<u8>, Seq<u8>)>
    decreases k,
{
    if k <= 0 {
        hg_base_labels(c, r, w0)
    } else {
        let prev = hg_labels_after(c, key, r, w0, k - 1);
        let o = c.gates@[k - 1].0 as int;
        match c.gates@[k - 1].1 {
            Gate::Inv(a) => upd(prev, o, (prev[a as int].1, prev[a as int].0)),
            Gate::And(a, b) => {
                let w = hg_and_w0(key, r, prev[a as int], prev[b as int]);
                upd(prev, o, (w, xor_seq(w, r)))
            },
            Gate::Xor(a, b) => {
                let w = xor_seq(prev[a as int].0, prev[b as int].0);
                upd(prev, o, (w, xor_seq(w, r)))
            },
        }
    }
}

/// The AND-gate cipher list after the first `k` gates, in gate order.
pub open spec fn hg_ciphers_after(
    c: Circuit,
    key: Seq<u8>,
    r: Seq<u8>,
    w0: Seq<Seq<u8>>,
    k: int,
) -> Seq<(Seq<u8>, Seq<u8>)>
    decreases k,
{
    if k <= 0 {
        Seq::empty()
    } else {
        let prev_c = hg_ciphers_after(c, key, r, w0, k - 1);
        match c.gates@[k - 1].1 {
            Gate::And(a, b) => {
                let prev = hg_labels_after(c, key, r, w0, k - 1);
                prev_c.push(
                    (
                        hg_tg(key, r, prev[a as int], prev[b as int]),
                        hg_te(key, prev[a as int], prev[b as int]),
                    ),
                )
            },
            _ => prev_c,
        }
    }
}

/// The label the evaluator derives at an AND gate from its two held labels
/// and that gate's cipher pair.
pub open spec fn hg_eval_and(key: Seq<u8>, la: Seq<u8>, lb: Seq<u8>, tg: Seq<u8>, te: Seq<u8>) -> Seq<
    u8,
> {
    let wg = xor_seq(
        aes128_block(key, la),
        if lsb(la) {
            tg
        } else {
            zero_seq(16)
        },
    );
    let we = xor_seq(
        aes128_block(key, lb),
        if lsb(lb) {
            xor_seq(te, la)
        } else {
            zero_seq(16)
        },
    );
    xor_seq(wg, we)
}

/// Maps input bits to Half-Gates input labels.
pub struct HalfGatesEncoder {
    pub inner: Vec<(Vec<u8>, Vec<u8>)>,
}

/// Holds one permute bit per output wire.
pub struct HalfGatesDecoder {
    pub inner: Vec<bool>,
}

/// The Half-Gates garbled artifact: the circuit's gates, the AND-gate cipher
/// pairs in gate order, and the fixed AES key.
pub struct HalfGates {
    pub input_length: usize,
    pub output_length: usize,
    pub gates: Vec<(usize, GarbledGate)>,
    pub ciphers: Vec<(Vec<u8>, Vec<u8>)>,
    pub key: Vec<u8>,
}

impl HalfGates {
    /// Total number of wires the evaluator tracks.
    pub open spec fn wire_count(self) -> int {
        self.input_length + self.gates@.len()
    }

    /// Internal consistency: 16-byte key and ciphers, gates in range.
    pub open spec fn hg_wf(self) -> bool {
        &&& self.key@.len() == 16
        &&& forall|j: int|
            0 <= j < self.ciphers@.len() ==> (#[trigger] self.ciphers@[j]).0@.len() == 16
                && self.ciphers@[j].1@.len() == 16
        &&& forall|k: int|
            0 <= k < self.gates@.len() ==> (#[trigger] self.gates@[k]).0 < self.wire_count()
                && ggate_reads_in_range(self.gates@[k].1, self.wire_count())
        &&& self.output_length <= self.wire_count()
        &&& self.wire_count() <= usize::MAX
    }

    /// The evaluator's label table after the first `k` garbled gates.
    pub open spec fn eval_after(self, input: Seq<Seq<u8>>, k: int) -> Seq<Seq<u8>>
        decreases k,
    {
        if k <= 0 {
            input + Seq::new(self.gates@.len(), |i: int| zero_seq(16))
        } else {
            let prev = self.eval_after(input, k - 1);
            let o = self.gates@[k - 1].0 as int;
            match self.gates@[k - 1].1 {
                GarbledGate::Copy(a) => upd(prev, o, prev[a as int]),
                GarbledGate::Xor(a, b) => upd(
                    prev,
                    o,
                    xor_seq(prev[a as int], prev[b as int]),
                ),
                GarbledGate::And(a, b) => {
                    let cpair = pair_views(self.ciphers@)[gand_count(self.gates@, k - 1)];
                    upd(
                        prev,
                        o,
                        hg_eval_and(self.key@, prev[a as int], prev[b as int], cpair.0, cpair.1),
                    )
                },
            }
        }
    }

    /// The structural relation between the artifact alone and the circuit:
    /// gates correspond one for one, and label table and cipher list arise from
    /// global difference `r` and input labels `w0`.
    pub open spec fn matches_circuit(self, c: Circuit, r: Seq<u8>, w0: Seq<Seq<u8>>) -> bool {
        &&& r.len() == 16
        &&& lsb(r)
        &&& w0.len() == c.input_length
        &&& (forall|i: int| 0 <= i < w0.len() ==> (#[trigger] w0[i]).len() == 16)
        &&& self.key@.len() == 16
        &&& self.input_length == c.input_length
        &&& self.output_length == c.output_length
        &&& self.gates@.len() == c.gates@.len()
        &&& (forall|k: int|
            0 <= k < c.gates@.len() ==> (#[trigger] self.gates@[k]) == (
            c.gates@[k].0,
            garbled_gate_of(c.gates@[k].1),
            ))
        &&& pair_views(self.ciphers@) == hg_ciphers_after(c, self.key@, r, w0, c.gates@.len() as int)
        &&& c.wf()
        &&& c.topology_ok()
    }

    /// The structural relation "these artifacts are the Half-Gates garbling
    /// of `c` built from global difference `r` and input labels `w0`".
    pub open spec fn garbling_with(
        self,
        enc: HalfGatesEncoder,
        dec: HalfGatesDecoder,
        c: Circuit,
        r: Seq<u8>,
        w0: Seq<Seq<u8>>,
    ) -> bool {
        let finals = hg_labels_after(c, self.key@, r, w0, c.gates@.len() as int);
        &&& self.matches_circuit(c, r, w0)
        &&& enc.inner@.len() == c.input_length
        &&& (forall|i: int|
            0 <= i < c.input_length ==> (#[trigger] pair_views(enc.inner@)[i]) == (
            w0[i],
            xor_seq(w0[i], r),
            ))
        &&& dec.inner@.len() == c.output_length
        &&& (forall|j: int|
            0 <= j < c.output_length ==> (#[trigger] dec.inner@[j]) == lsb(
                finals[c.wire_count() - c.output_length + j].0,
            ))
    }
}

impl GarbledEncoder<Vec<u8>> for HalfGatesEncoder {
    open spec fn num_inputs(&self) -> nat {
        self.inner@.len()
    }

    open spec fn label_spec(&self, i: int, v: bool) -> Seq<u8> {
        if v {
            self.inner@[i].1@
        } else {
            self.inner@[i].0@
        }
    }

    fn encode(&self, input: &Vec<bool>) -> (r: Result<Vec<Vec<u8>>, EvalError>) {
        if input.len() != self.inner.len() {
            return Err(EvalError::LengthMismatch);
        }
        let mut out: Vec<Vec<u8>> = Vec::new();
        let mut i: usize = 0;
        while i < input.len()
            invariant
                input@.len() == self.inner@.len(),
                i <= input@.len(),
                out@.len() == i,
                forall|j: int| 0 <= j < i ==> (#[trigger] out@[j])@ == self.label_spec(
                    j,
                    input@[j],
                ),
            decreases input@.len() - i,
        {
            if input[i] {
                out.push(clone_label(&self.inner[i].1));
            } else {
                out.push(clone_label(&self.inner[i].0));
            }
            i = i + 1;
        }
        Ok(out)
    }
}

impl GarbledDecoder<Vec<u8>> for HalfGatesDecoder {
    open spec fn num_outputs(&self) -> nat {
        self.inner@.len()
    }

    open spec fn decode_ok(&self, input: Seq<Seq<u8>>) -> bool {
        input.len() == self.inner@.len() && forall|i: int|
            0 <= i < input.len() ==> (#[trigger] input[i]).len() > 0
    }

    open spec fn decode_spec(&self, input: Seq<Seq<u8>>) -> Seq<bool> {
        Seq::new(input.len(), |i: int| lsb(input[i]) != self.inner@[i])
    }

    open spec fn decode_err(&self, input: Seq<Seq<u8>>) -> EvalError {
        EvalError::LengthMismatch
    }

    fn decode(&self, input: &Vec<Vec<u8>>) -> (r: Result<Vec<bool>, EvalError>) {
        if input.len() != self.inner.len() {
            assert(seq_views(input@).len() == input@.len());
            return Err(EvalError::LengthMismatch);
        }
        let mut out: Vec<bool> = Vec::new();
        let mut i: usize = 0;
        while i < input.len()
            invariant
                input@.len() == self.inner@.len(),
                i <= input@.len(),
                out@.len() == i,
                forall|j: int| 0 <= j < i ==> (#[trigger] seq_views(input@)[j]).len() > 0,
                forall|j: int| 0 <= j < i ==> (#[trigger] out@[j]) == (lsb(input@[j]@)
                    != self.inner@[j]),
            decreases input@.len() - i,
        {
            if input[i].len() == 0 {
                assert(seq_views(input@)[i as int].len() == 0);
                return Err(EvalError::LengthMismatch);
            }
            let b = get_lsb(&input[i]) != self.inner[i];
            out.push(b);
            i = i + 1;
        }
        proof {
            assert(self.decode_ok(seq_views(input@)));
            assert(out@ =~= self.decode_spec(seq_views(input@)));
        }
        Ok(out)
    }
}

/// Counting AND gates over a longer prefix never counts fewer.
pub proof fn lemma_gand_count_monotone(gates: Seq<(usize, GarbledGate)>, k1: int, k2: int)
    requires
        k1 <= k2,
    ensures
        gand_count(gates, k1) <= gand_count(gates, k2),
    decreases k2 - k1,
{
    if k1 < k2 {
        lemma_gand_count_monotone(gates, k1, k2 - 1);
    }
}

/// The evaluator's AND-gate step.
fn eval_and_gate(key: &Vec<u8>, la: &Vec<u8>, lb: &Vec<u8>, tg: &Vec<u8>, te: &Vec<u8>) -> (r: Vec<
    u8,
>)
    requires
        key@.len() == 16,
        la@.len() == 16,
        lb@.len() == 16,
        tg@.len() == 16,
        te@.len() == 16,
    ensures
        r@ == hg_eval_and(key@, la@, lb@, tg@, te@),
        r@.len() == 16,
{
    let ha = aes128_encrypt(key, la);
    let wg = if get_lsb(la) {
        xor_blocks(&ha, tg)
    } else {
        proof {
            crate::blocks::lemma_xor_zero(ha@);
        }
        clone_label(&ha)
    };
    let hb = aes128_encrypt(key, lb);
    let we = if get_lsb(lb) {
        xor_blocks(&hb, &xor_blocks(te, la))
    } else {
        proof {
            crate::blocks::lemma_xor_zero(hb@);
        }
        clone_label(&hb)
    };
    xor_blocks(&wg, &we)
}

/// The garbler's AND-gate step: returns the cipher pair and the false
/// output label.
fn garble_and_gate(
    key: &Vec<u8>,
    r: &Vec<u8>,
    la0: &Vec<u8>,
    la1: &Vec<u8>,
    lb0: &Vec<u8>,
    lb1: &Vec<u8>,
) -> (out: (Vec<u8>, Vec<u8>, Vec<u8>))
    requires
        key@.len() == 16,
        r@.len() == 16,
        la0@.len() == 16,
        la1@.len() == 16,
        lb0@.len() == 16,
        lb1@.len() == 16,
    ensures
        out.0@ == hg_tg(key@, r@, (la0@, la1@), (lb0@, lb1@)),
        out.1@ == hg_te(key@, (la0@, la1@), (lb0@, lb1@)),
        out.2@ == hg_and_w0(key@, r@, (la0@, la1@), (lb0@, lb1@)),
        out.0@.len() == 16,
        out.1@.len() == 16,
        out.2@.len() == 16,
{
    let pa = get_lsb(la0);
    let pb = get_lsb(lb0);
    let h0a = aes128_encrypt(key, la0);
    let h1a = aes128_encrypt(key, la1);
    let tg = if pb {
        xor_blocks(&xor_blocks(&h0a, &h1a), r)
    } else {
        proof {
            crate::blocks::lemma_xor_zero(xor_seq(h0a@, h1a@));
        }
        xor_blocks(&h0a, &h1a)
    };
    let w0g = if pa {
        xor_blocks(&h0a, &tg)
    } else {
        proof {
            crate::blocks::lemma_xor_zero(h0a@);
        }
        clone_label(&h0a)
    };
    let h0b = aes128_encrypt(key, lb0);
    let h1b = aes128_encrypt(key, lb1);
    let te = xor_blocks(&xor_blocks(&h0b, &h1b), la0);
    let w0e = if pb {
        xor_blocks(&h0b, &xor_blocks(&te, la0))
    } else {
        proof {
            crate::blocks::lemma_xor_zero(h0b@);
        }
        clone_label(&h0b)
    };
    let w0 = xor_blocks(&w0g, &w0e);
    (tg, te, w0)
}

impl GarbledCircuit<HalfGatesEncoder, HalfGatesDecoder> for HalfGates {
    type Label = Vec<u8>;

    open spec fn wf(&self) -> bool {
        self.hg_wf()
    }

    open spec fn eval_ok(&self, input: Seq<Seq<u8>>) -> bool {
        &&& input.len() == self.input_length
        &&& (forall|i: int| 0 <= i < input.len() ==> (#[trigger] input[i]).len() == 16)
        &&& gand_count(self.gates@, self.gates@.len() as int) <= self.ciphers@.len()
    }

    open spec fn eval_spec(&self, input: Seq<Seq<u8>>) -> Seq<Seq<u8>> {
        self.eval_after(input, self.gates@.len() as int).skip(
            self.wire_count() - self.output_length,
        )
    }

    open spec fn eval_err(&self, input: Seq<Seq<u8>>) -> EvalError {
        if input.len() != self.input_length || (exists|i: int|
            0 <= i < input.len() && (#[trigger] input[i]).len() != 16) {
            EvalError::LengthMismatch
        } else {
            EvalError::CipherExhausted
        }
    }

    open spec fn is_garbling_of(
        &self,
        encoder: &HalfGatesEncoder,
        decoder: &HalfGatesDecoder,
        c: Circuit,
    ) -> bool {
        exists|r: Seq<u8>, w0: Seq<Seq<u8>>| self.garbling_with(*encoder, *decoder, c, r, w0)
    }

    fn evaluate(&self, input: Vec<Vec<u8>>) -> (r: Result<Vec<Vec<u8>>, EvalError>) {
        let ghost iv = seq_views(input@);
        proof {
            assert(iv.len() == input@.len());
        }
        if input.len() != self.input_length {
            return Err(EvalError::LengthMismatch);
        }
        let mut i: usize = 0;
        while i < input.len()
            invariant
                iv == seq_views(input@),
                iv.len() == input@.len(),
                i <= input@.len(),
                forall|j: int| 0 <= j < i ==> (#[trigger] iv[j]).len() == 16,
            decreases input@.len() - i,
        {
            if input[i].len() != 16 {
                proof {
                    assert(iv[i as int].len() != 16);
                    assert(self.eval_err(iv) == EvalError::LengthMismatch) by {
                        assert(0 <= i < iv.len() && iv[i as int].len() != 16);
                    }
                }
                return Err(EvalError::LengthMismatch);
            }
            i = i + 1;
        }
        let n = self.input_length + self.gates.len();
        let mut values = input;
        proof {
            assert forall|j: int| 0 <= j < values@.len() implies (#[trigger] values@[j])@.len()
                == 16 by {
                assert(iv[j] == values@[j]@);
            }
            assert(seq_views(values@) =~= self.eval_after(iv, 0).take(self.input_length as int));
        }
        let mut w: usize = self.input_length;
        while w < n
            invariant
                self.input_length <= w <= n,
                n == self.wire_count(),
                self.hg_wf(),
                values@.len() == w,
                seq_views(values@) =~= self.eval_after(iv, 0).take(w as int),
                iv.len() == self.input_length,
                forall|j: int| 0 <= j < w ==> (#[trigger] values@[j])@.len() == 16,
            decreases n - w,
        {
            values.push(zero_block(16));
            assert(seq_views(values@) =~= self.eval_after(iv, 0).take(w as int + 1));
            w = w + 1;
        }
        assert(seq_views(values@) =~= self.eval_after(iv, 0));

        let mut cursor: usize = 0;
        let mut k: usize = 0;
        while k < self.gates.len()
            invariant
                k <= self.gates@.len(),
                n == self.wire_count(),
                self.hg_wf(),
                iv == seq_views(input@),
                iv.len() == self.input_length,
                forall|j: int| 0 <= j < iv.len() ==> (#[trigger] iv[j]).len() == 16,
                values@.len() == n,
                forall|j: int| 0 <= j < n ==> (#[trigger] values@[j])@.len() == 16,
                seq_views(values@) == self.eval_after(iv, k as int),
                cursor == gand_count(self.gates@, k as int),
                cursor <= self.ciphers@.len(),
            decreases self.gates@.len() - k,
        {
            let ghost prev = self.eval_after(iv, k as int);
            let (o, g) = self.gates[k];
            match g {
                GarbledGate::Copy(a) => {
                    let v = clone_label(&values[a]);
                    values[o] = v;
                },
                GarbledGate::Xor(a, b) => {
                    let v = xor_blocks(&values[a], &values[b]);
                    values[o] = v;
                },
                GarbledGate::And(a, b) => {
                    if cursor >= self.ciphers.len() {
                        proof {
                            lemma_gand_count_monotone(
                                self.gates@,
                                k as int + 1,
                                self.gates@.len() as int,
                            );
                            assert(!self.eval_ok(iv));
                            assert(self.eval_err(iv) == EvalError::CipherExhausted);
                        }
                        return Err(EvalError::CipherExhausted);
                    }
                    let la = clone_label(&values[a]);
                    let v = eval_and_gate(
                        &self.key,
                        &la,
                        &values[b],
                        &self.ciphers[cursor].0,
                        &self.ciphers[cursor].1,
                    );
                    proof {
                        assert(pair_views(self.ciphers@)[cursor as int].0 == self.ciphers@[
                        cursor as int].0@);
                        assert(pair_views(self.ciphers@)[cursor as int].1 == self.ciphers@[
                        cursor as int].1@);
                    }
                    values[o] = v;
                    cursor = cursor + 1;
                },
            }
            proof {
                assert(seq_views(values@) =~= self.eval_after(iv, k as int + 1));
            }
            k = k + 1;
        }

        let start = n - self.output_length;
        let mut out: Vec<Vec<u8>> = Vec::new();
        let mut j: usize = start;
        while j < n
            invariant
                start <= j <= n,
                n == self.wire_count(),
                start == n - self.output_length,
                values@.len() == n,
                forall|q: int| 0 <= q < n ==> (#[trigger] values@[q])@.len() == 16,
                out@.len() == j - start,
                forall|q: int| 0 <= q < out@.len() ==> (#[trigger] out@[q])@ == values@[start
                    + q]@,
            decreases n - j,
        {
            out.push(clone_label(&values[j]));
            j = j + 1;
        }
        proof {
            assert(seq_views(out@) =~= seq_views(values@).skip(start as int));
        }
        Ok(out)
    }

    fn garble_compute(
        &self,
        encoder: &HalfGatesEncoder,
        decoder: &HalfGatesDecoder,
        input: &Vec<bool>,
    ) -> (r: Result<Vec<bool>, EvalError>)
        ensures
            (r is Ok) <==> ({
                &&& input@.len() == encoder.num_inputs()
                &&& self.eval_ok(encoded_views(encoder, input@))
                &&& decoder.decode_ok(self.eval_spec(encoded_views(encoder, input@)))
            }),
            r matches Ok(bits) ==> bits@ == decoder.decode_spec(
                self.eval_spec(encoded_views(encoder, input@)),
            ),
            r matches Err(e) ==> e == (if input@.len() != encoder.num_inputs() {
                EvalError::LengthMismatch
            } else if !self.eval_ok(encoded_views(encoder, input@)) {
                self.eval_err(encoded_views(encoder, input@))
            } else {
                decoder.decode_err(self.eval_spec(encoded_views(encoder, input@)))
            }),
            forall|c: Circuit|
                (#[trigger] self.is_garbling_of(encoder, decoder, c)) && input@.len()
                    == c.input_length ==> r is Ok && r->Ok_0@ == c.output_of(input@),
    {
        let labels = match encoder.encode(input) {
            Ok(l) => l,
            Err(e) => {
                proof {
                    assert forall|c: Circuit|
                        (#[trigger] self.is_garbling_of(encoder, decoder, c)) && input@.len()
                            == c.input_length implies false by {
                        let (rr, ww) = choose|rr: Seq<u8>, ww: Seq<Seq<u8>>|
                            self.garbling_with(*encoder, *decoder, c, rr, ww);
                        crate::hg_correct::lemma_hg_garble_correct(
                            *self,
                            *encoder,
                            *decoder,
                            c,
                            rr,
                            ww,
                            input@,
                        );
                    }
                }
                return Err(e);
            },
        };
        let ghost lv = seq_views(labels@);
        proof {
            assert(lv =~= encoded_views(encoder, input@));
        }
        let outputs = match self.evaluate(labels) {
            Ok(o) => o,
            Err(e) => {
                proof {
                    assert forall|c: Circuit|
                        (#[trigger] self.is_garbling_of(encoder, decoder, c)) && input@.len()
                            == c.input_length implies false by {
                        let (rr, ww) = choose|rr: Seq<u8>, ww: Seq<Seq<u8>>|
                            self.garbling_with(*encoder, *decoder, c, rr, ww);
                        crate::hg_correct::lemma_hg_garble_correct(
                            *self,
                            *encoder,
                            *decoder,
                            c,
                            rr,
                            ww,
                            input@,
                        );
                        assert(lv =~= crate::hg_correct::hg_encode_views(c, rr, ww, input@));
                    }
                }
                return Err(e);
            },
        };
        let result = decoder.decode(&outputs);
        proof {
            assert(seq_views(outputs@) == self.eval_spec(encoded_views(encoder, input@)));
            assert forall|c: Circuit|
                (#[trigger] self.is_garbling_of(encoder, decoder, c)) && input@.len()
                    == c.input_length implies result is Ok && result->Ok_0@ == c.output_of(
                input@,
            ) by {
                let (rr, ww) = choose|rr: Seq<u8>, ww: Seq<Seq<u8>>|
                    self.garbling_with(*encoder, *decoder, c, rr, ww);
                crate::hg_correct::lemma_hg_garble_correct(
                    *self,
                    *encoder,
                    *decoder,
                    c,
                    rr,
                    ww,
                    input@,
                );
                assert(lv =~= crate::hg_correct::hg_encode_views(c, rr, ww, input@));
            }
        }
        result
    }

    fn garble_circuit(circuit: &Circuit) -> (r: (Self, HalfGatesEncoder, HalfGatesDecoder))
        ensures
            r.0.ciphers@.len() == and_count(circuit.gates@, circuit.gates@.len() as int),
            r.0.input_length == circuit.input_length,
            r.0.output_length == circuit.output_length,
            r.0.gates@.len() == circuit.gates@.len(),
    {
        let key = random_bytes(16);
        let mut r = random_bytes(16);
        set_lsb(&mut r, true);

        let n = circuit.input_length + circuit.gates.len();
        let mut labels: Vec<(Vec<u8>, Vec<u8>)> = Vec::new();
        let mut i: usize = 0;
        while i < circuit.input_length
            invariant
                i <= circuit.input_length,
                circuit.input_length <= n,
                r@.len() == 16,
                labels@.len() == i,
                forall|j: int| 0 <= j < i ==> (#[trigger] labels@[j]).0@.len() == 16,
                forall|j: int| 0 <= j < i ==> (#[trigger] labels@[j]).1@ == xor_seq(
                    labels@[j].0@,
                    r@,
                ),
            decreases circuit.input_length - i,
        {
            let w0 = random_bytes(16);
            let w1 = xor_blocks(&w0, &r);
            labels.push((w0, w1));
            i = i + 1;
        }
        let ghost w0s = Seq::new(circuit.input_length as nat, |j: int| labels@[j].0@);
        while i < n
            invariant
                circuit.input_length <= i <= n,
                r@.len() == 16,
                labels@.len() == i,
                w0s.len() == circuit.input_length,
                forall|j: int| 0 <= j < circuit.input_length ==> (#[trigger] labels@[j]).0@
                    == w0s[j],
                forall|j: int| 0 <= j < circuit.input_length ==> (#[trigger] labels@[j]).0@.len()
                    == 16,
                forall|j: int| 0 <= j < circuit.input_length ==> (#[trigger] labels@[j]).1@
                    == xor_seq(labels@[j].0@, r@),
                forall|j: int| circuit.input_length <= j < i ==> (#[trigger] labels@[j]).0@
                    == zero_seq(16) && labels@[j].1@ == zero_seq(16),
            decreases n - i,
        {
            labels.push((zero_block(16), zero_block(16)));
            i = i + 1;
        }
        proof {
            assert(pair_views(labels@) =~= hg_base_labels(*circuit, r@, w0s));
        }

        let mut enc_inner: Vec<(Vec<u8>, Vec<u8>)> = Vec::new();
        let mut e: usize = 0;
        while e < circuit.input_length
            invariant
                e <= circuit.input_length,
                circuit.input_length <= labels@.len(),
                enc_inner@.len() == e,
                forall|j: int| 0 <= j < e ==> (#[trigger] enc_inner@[j]).0@ == labels@[j].0@
                    && enc_inner@[j].1@ == labels@[j].1@,
            decreases circuit.input_length - e,
        {
            let p0 = clone_label(&enc_inner_src(&labels, e).0);
            let p1 = clone_label(&enc_inner_src(&labels, e).1);
            enc_inner.push((p0, p1));
            e = e + 1;
        }

        let ghost c = *circuit;
        let mut garbled: Vec<(usize, GarbledGate)> = Vec::new();
        let mut ciphers: Vec<(Vec<u8>, Vec<u8>)> = Vec::new();
        let mut k: usize = 0;
        while k < circuit.gates.len()
            invariant
                k <= circuit.gates@.len(),
                c == *circuit,
                c.wf(),
                c.topology_ok(),
                n == c.wire_count(),
                key@.len() == 16,
                r@.len() == 16,
                labels@.len() == n,
                forall|w: int| 0 <= w < n ==> (#[trigger] labels@[w]).0@.len() == 16
                    && labels@[w].1@.len() == 16,
                pair_views(labels@) == hg_labels_after(c, key@, r@, w0s, k as int),
                pair_views(ciphers@) == hg_ciphers_after(c, key@, r@, w0s, k as int),
                forall|j: int| 0 <= j < ciphers@.len() ==> (#[trigger] ciphers@[j]).0@.len() == 16
                    && ciphers@[j].1@.len() == 16,
                garbled@.len() == k,
                forall|j: int| 0 <= j < k ==> (#[trigger] garbled@[j]) == (
                    c.gates@[j].0,
                    garbled_gate_of(c.gates@[j].1),
                ),
            decreases circuit.gates@.len() - k,
        {
            let ghost prev = hg_labels_after(c, key@, r@, w0s, k as int);
            proof {
                assert(c.gates@[k as int].0 < c.wire_count());
            }
            let (o, g) = circuit.gates[k];
            match g {
                Gate::Inv(a) => {
                    let p1 = clone_label(&labels[a].1);
                    let p0 = clone_label(&labels[a].0);
                    labels[o] = (p1, p0);
                    garbled.push((o, GarbledGate::Copy(a)));
                },
                Gate::Xor(a, b) => {
                    let w0 = xor_blocks(&labels[a].0, &labels[b].0);
                    let w1 = xor_blocks(&w0, &r);
                    labels[o] = (w0, w1);
                    garbled.push((o, GarbledGate::Xor(a, b)));
                },
                Gate::And(a, b) => {
                    let la0 = clone_label(&labels[a].0);
                    let la1 = clone_label(&labels[a].1);
                    let (tg, te, w0) = garble_and_gate(
                        &key,
                        &r,
                        &la0,
                        &la1,
                        &labels[b].0,
                        &labels[b].1,
                    );
                    let w1 = xor_blocks(&w0, &r);
                    labels[o] = (w0, w1);
                    ciphers.push((tg, te));
                    garbled.push((o, GarbledGate::And(a, b)));
                },
            }
            proof {
                assert(pair_views(labels@) =~= hg_labels_after(c, key@, r@, w0s, k as int + 1));
                assert(pair_views(ciphers@) =~= hg_ciphers_after(c, key@, r@, w0s, k as int + 1));
            }
            k = k + 1;
        }

        let start = n - circuit.output_length;
        let mut dec_inner: Vec<bool> = Vec::new();
        let mut d: usize = 0;
        while d < circuit.output_length
            invariant
                c == *circuit,
                d <= circuit.output_length,
                n == c.wire_count(),
                start == n - c.output_length,
                c.output_length <= n,
                labels@.len() == n,
                forall|w: int| 0 <= w < n ==> (#[trigger] labels@[w]).0@.len() == 16,
                dec_inner@.len() == d,
                forall|j: int| 0 <= j < d ==> (#[trigger] dec_inner@[j]) == lsb(
                    labels@[start + j].0@,
                ),
            decreases circuit.output_length - d,
        {
            dec_inner.push(get_lsb(&enc_inner_src(&labels, start + d).0));
            d = d + 1;
        }

        let gc = HalfGates {
            input_length: circuit.input_length,
            output_length: circuit.output_length,
            gates: garbled,
            ciphers,
            key,
        };
        let enc = HalfGatesEncoder { inner: enc_inner };
        let dec = HalfGatesDecoder { inner: dec_inner };
        proof {
            lemma_hg_ciphers_count(c, gc.key@, r@, w0s, c.gates@.len() as int);
            assert(gc.garbling_with(enc, dec, c, r@, w0s));
            assert(gc.hg_wf());
        }
        (gc, enc, dec)
    }
}

/// Borrows a label pair out of the garbler's table.
fn enc_inner_src(labels: &Vec<(Vec<u8>, Vec<u8>)>, i: usize) -> (r: &(Vec<u8>, Vec<u8>))
    requires
        i < labels@.len(),
    ensures
        *r == labels@[i as int],
{
    &labels[i]
}

/// The cipher list after `k` gates holds one pair per AND gate seen.
pub proof fn lemma_hg_ciphers_count(c: Circuit, key: Seq<u8>, r: Seq<u8>, w0: Seq<Seq<u8>>, k: int)
    ensures
        hg_ciphers_after(c, key, r, w0, k).len() == and_count(c.gates@, k),
    decreases (if k > 0 {
        k
    } else {
        0
    }),
{
    if k > 0 {
        lemma_hg_ciphers_count(c, key, r, w0, k - 1);
    }
}

} // verus!

