use vstd::prelude::*;

use sha2::Digest;

use crate::blocks::{clone_label, eq, row_views, xor_blocks, xor_seq, zero_block, zero_seq};
use crate::circuit::{upd, Circuit, Gate};
use crate::errors::EvalError;
use crate::garble::{encoded_views, seq_views, GarbledCircuit, GarbledDecoder, GarbledEncoder};
use crate::half_gates::{pair_views, sel};
use crate::rng::{random_bytes, shuffle_rows};

verus! {

/// What SHA-256 returns for a byte string.
pub uninterp spec fn sha256_raw(data: Seq<u8>) -> Seq<u8>;

/// The SHA-256 digest as a 32-byte block.
pub open spec fn sha256_of(data: Seq<u8>) -> Seq<u8> {
    Seq::new(32, |i: int| sha256_raw(data)[i])
}

/// Relies on sha2::Sha256 (`Digest::digest`): the SHA-256 digest is a
/// 32-byte value that depends on the input bytes alone.
#[verifier::external_body]
fn sha256(data: &Vec<u8>) -> (r: Vec<u8>)
    ensures
        r@ == sha256_raw(data@),
        r@ == sha256_of(data@),
        r@.len() == 32,
{
    sha2::Sha256::digest(data.as_slice()).to_vec()
}

/// The big-endian bytes of a 64-bit wire index.
pub open spec fn be8(x: u64) -> Seq<u8> {
    Seq::new(8, |i: int| ((x >> (((7 - i) * 8) as u64)) & 0xff) as u8)
}

/// Writes a wire index as eight big-endian bytes.
fn be_bytes(x: u64) -> (r: Vec<u8>)
    ensures
        r@ == be8(x),
{
    let mut out: Vec<u8> = Vec::new();
    out.push((x >> 56) as u8);
    out.push((x >> 48) as u8);
    out.push((x >> 40) as u8);
    out.push((x >> 32) as u8);
    out.push((x >> 24) as u8);
    out.push((x >> 16) as u8);
    out.push((x >> 8) as u8);
    out.push(x as u8);
    proof {
        assert(((x >> 56) as u8) == (((x >> 56) & 0xff) as u8)) by (bit_vector);
        assert(((x >> 48) as u8) == (((x >> 48) & 0xff) as u8)) by (bit_vector);
        assert(((x >> 40) as u8) == (((x >> 40) & 0xff) as u8)) by (bit_vector);
        assert(((x >> 32) as u8) == (((x >> 32) & 0xff) as u8)) by (bit_vector);
        assert(((x >> 24) as u8) == (((x >> 24) & 0xff) as u8)) by (bit_vector);
        assert(((x >> 16) as u8) == (((x >> 16) & 0xff) as u8)) by (bit_vector);
        assert(((x >> 8) as u8) == (((x >> 8) & 0xff) as u8)) by (bit_vector);
        assert((x as u8) == (((x >> 0) & 0xff) as u8)) by (bit_vector);
        assert(out@ =~= be8(x));
    }
    out
}

/// The digest keying one row of a unary gate's table.
pub open spec fn hash1(la: Seq<u8>, o: u64) -> Seq<u8> {
    sha256_of(la + be8(o))
}

/// The digest keying one row of a binary gate's table.
pub open spec fn hash2(la: Seq<u8>, lb: Seq<u8>, o: u64) -> Seq<u8> {
    sha256_of(la + lb + be8(o))
}

/// Hashes one input label together with the output wire index.
fn hash_unary(la: &Vec<u8>, o: u64) -> (r: Vec<u8>)
    ensures
        r@ == hash1(la@, o),
        r@.len() == 32,
{
    let mut data = clone_label(la);
    let mut tail = be_bytes(o);
    data.append(&mut tail);
    proof {
        assert(data@ =~= la@ + be8(o));
    }
    sha256(&data)
}

/// Hashes two input labels together with the output wire index.
fn hash_binary(la: &Vec<u8>, lb: &Vec<u8>, o: u64) -> (r: Vec<u8>)
    ensures
        r@ == hash2(la@, lb@, o),
        r@.len() == 32,
{
    let mut data = clone_label(la);
    let mut mid = clone_label(lb);
    data.append(&mut mid);
    let mut tail = be_bytes(o);
    data.append(&mut tail);
    proof {
        assert(data@ =~= la@ + lb@ + be8(o));
    }
    sha256(&data)
}

/// What a gate computes, as a function of its input bits.
pub open spec fn gate_fn(g: Gate, va: bool, vb: bool) -> bool {
    match g {
        Gate::Inv(_) => !va,
        Gate::And(_, _) => va && vb,
        Gate::Xor(_, _) => va != vb,
    }
}

/// One table row: the output label for this input combination, padded with
/// sixteen zero bytes, XORed with the row's digest.
pub open spec fn classic_row(
    labels: Seq<(Seq<u8>, Seq<u8>)>,
    o: usize,
    g: Gate,
    va: bool,
    vb: bool,
) -> Seq<u8> {
    let pad = sel(labels[o as int], gate_fn(g, va, vb)) + zero_seq(16);
    match g {
        Gate::Inv(a) => xor_seq(pad, hash1(sel(labels[a as int], va), o as u64)),
        Gate::And(a, b) => xor_seq(
            pad,
            hash2(sel(labels[a as int], va), sel(labels[b as int], vb), o as u64),
        ),
        Gate::Xor(a, b) => xor_seq(
            pad,
            hash2(sel(labels[a as int], va), sel(labels[b as int], vb), o as u64),
        ),
    }
}

/// A gate's table before shuffling: two rows for INV, four for AND and XOR.
pub open spec fn classic_rows(labels: Seq<(Seq<u8>, Seq<u8>)>, o: usize, g: Gate) -> Seq<Seq<u8>> {
    match g {
        Gate::Inv(_) => seq![
            classic_row(labels, o, g, false, false),
            classic_row(labels, o, g, true, false),
        ],
        _ => seq![
            classic_row(labels, o, g, false, false),
            classic_row(labels, o, g, false, true),
            classic_row(labels, o, g, true, false),
            classic_row(labels, o, g, true, true),
        ],
    }
}

/// Whether a decrypted row carries the all-zero selection tag.
pub open spec fn tag_zero(m: Seq<u8>) -> bool {
    m.len() == 32 && m.subrange(16, 32) == zero_seq(16)
}

/// How many rows of the table decrypt to a zero tag under `h`, among the
/// first `j` rows.
pub open spec fn zt_count(table: Seq<Seq<u8>>, h: Seq<u8>, j: int) -> int
    decreases j,
{
    if j <= 0 {
        0
    } else {
        zt_count(table, h, j - 1) + (if tag_zero(xor_seq(table[j - 1], h)) {
            1int
        } else {
            0int
        })
    }
}

/// The first row of the table that decrypts to a zero tag under `h`, among
/// the first `j` rows; `-1` when there is none.
pub open spec fn zt_first(table: Seq<Seq<u8>>, h: Seq<u8>, j: int) -> int
    decreases j,
{
    if j <= 0 {
        -1
    } else if zt_first(table, h, j - 1) >= 0 {
        zt_first(table, h, j - 1)
    } else if tag_zero(xor_seq(table[j - 1], h)) {
        j - 1
    } else {
        -1
    }
}

impl Classic {
    /// Total number of wires the evaluator tracks.
    pub open spec fn wire_count(self) -> int {
        self.input_length + self.gates@.len()
    }

    /// Internal consistency: one table per gate, 32-byte rows, gates in range.
    pub open spec fn classic_wf(self) -> bool {
        &&& self.ciphers@.len() == self.gates@.len()
        &&& (forall|k: int, j: int|
            0 <= k < self.ciphers@.len() && 0 <= j < self.ciphers@[k]@.len() ==> (
            #[trigger] self.ciphers@[k]@[j])@.len() == 32)
        &&& (forall|k: int|
            0 <= k < self.gates@.len() ==> (#[trigger] self.gates@[k]).0 < self.wire_count()
                && crate::circuit::gate_reads_in_range(self.gates@[k].1, self.wire_count()))
        &&& self.output_length <= self.wire_count()
        &&& self.wire_count() <= usize::MAX
    }

    /// The digest the evaluator computes at gate `k` from its held labels.
    pub open spec fn gate_h(self, vals: Seq<Seq<u8>>, k: int) -> Seq<u8> {
        let o = self.gates@[k].0 as u64;
        match self.gates@[k].1 {
            Gate::Inv(a) => hash1(vals[a as int], o),
            Gate::And(a, b) => hash2(vals[a as int], vals[b as int], o),
            Gate::Xor(a, b) => hash2(vals[a as int], vals[b as int], o),
        }
    }

    /// The evaluator's label table after the first `k` gates: at each gate
    /// the first row with a zero tag, if any, provides the output label.
    pub open spec fn eval_after_c(self, input: Seq<Seq<u8>>, k: int) -> Seq<Seq<u8>>
        decreases k,
    {
        if k <= 0 {
            input + Seq::new(self.gates@.len(), |i: int| Seq::<u8>::empty())
        } else {
            let prev = self.eval_after_c(input, k - 1);
            let table = row_views(self.ciphers@[k - 1]@);
            let h = self.gate_h(prev, k - 1);
            let idx = zt_first(table, h, table.len() as int);
            if idx >= 0 {
                upd(prev, self.gates@[k - 1].0 as int, xor_seq(table[idx], h).subrange(0, 16))
            } else {
                prev
            }
        }
    }

    /// Whether each of the first `k` gates had exactly one zero-tag row.
    pub open spec fn eval_ok_upto(self, input: Seq<Seq<u8>>, k: int) -> bool
        decreases k,
    {
        if k <= 0 {
            true
        } else {
            self.eval_ok_upto(input, k - 1) && {
                let prev = self.eval_after_c(input, k - 1);
                let table = row_views(self.ciphers@[k - 1]@);
                zt_count(table, self.gate_h(prev, k - 1), table.len() as int) == 1
            }
        }
    }

    /// The structural relation "these artifacts are the Classic garbling of
    /// `c` built from the wire label table `labels`".
    pub open spec fn garbling_with(
        self,
        enc: ClassicEncoder,
        dec: ClassicDecoder,
        c: Circuit,
        labels: Seq<(Seq<u8>, Seq<u8>)>,
    ) -> bool {
        &&& labels.len() == c.wire_count()
        &&& (forall|w: int|
            0 <= w < labels.len() ==> (#[trigger] labels[w]).0.len() == 16 && labels[w].1.len()
                == 16)
        &&& self.input_length == c.input_length
        &&& self.output_length == c.output_length
        &&& self.gates@ == c.gates@
        &&& self.ciphers@.len() == c.gates@.len()
        &&& (forall|k: int|
            0 <= k < c.gates@.len() ==> row_views((#[trigger] self.ciphers@[k])@).to_multiset()
                == classic_rows(labels, c.gates@[k].0, c.gates@[k].1).to_multiset())
        &&& enc.inner@.len() == c.input_length
        &&& (forall|i: int|
            0 <= i < c.input_length ==> (#[trigger] pair_views(enc.inner@)[i]) == labels[i])
        &&& dec.inner@.len() == c.output_length
        &&& (forall|j: int|
            0 <= j < c.output_length ==> (#[trigger] pair_views(dec.inner@)[j]) == labels[c.wire_count()
                - c.output_length + j])
        &&& c.wf()
        &&& c.topology_ok()
    }
}

/// A longer run of successful gates never rescues an earlier failure.
pub proof fn lemma_classic_ok_monotone(gc: Classic, input: Seq<Seq<u8>>, k1: int, k2: int)
    requires
        k1 <= k2,
        gc.eval_ok_upto(input, k2),
    ensures
        gc.eval_ok_upto(input, k1),
    decreases k2 - k1,
{
    if k1 < k2 {
        lemma_classic_ok_monotone(gc, input, k1, k2 - 1);
    }
}

/// Zero-tag counts never shrink as more rows are scanned.
pub proof fn lemma_zt_count_monotone(table: Seq<Seq<u8>>, h: Seq<u8>, j1: int, j2: int)
    requires
        j1 <= j2,
    ensures
        zt_count(table, h, j1) <= zt_count(table, h, j2),
    decreases j2 - j1,
{
    if j1 < j2 {
        lemma_zt_count_monotone(table, h, j1, j2 - 1);
    }
}

/// Checks for the all-zero selection tag in a decrypted row.
fn has_zero_tag(v: &Vec<u8>) -> (r: bool)
    ensures
        r == tag_zero(v@),
{
    if v.len() != 32 {
        return false;
    }
    let mut i: usize = 16;
    while i < 32
        invariant
            16 <= i <= 32,
            v@.len() == 32,
            forall|q: int| 16 <= q < i ==> v@[q] == 0u8,
        decreases 32 - i,
    {
        if v[i] != 0 {
            assert(v@.subrange(16, 32)[i - 16] != zero_seq(16)[i - 16]);
            return false;
        }
        i = i + 1;
    }
    proof {
        assert(v@.subrange(16, 32) =~= zero_seq(16));
    }
    true
}

/// Borrows one wire's label pair out of the garbler's table.
fn pair_at(labels: &Vec<(Vec<u8>, Vec<u8>)>, i: usize) -> (r: &(Vec<u8>, Vec<u8>))
    requires
        i < labels@.len(),
    ensures
        *r == labels@[i as int],
{
    &labels[i]
}

/// Maps input bits to Classic input labels.
pub struct ClassicEncoder {
    pub inner: Vec<(Vec<u8>, Vec<u8>)>,
}

/// Holds the two possible labels of each output wire.
pub struct ClassicDecoder {
    pub inner: Vec<(Vec<u8>, Vec<u8>)>,
}

/// The Classic garbled artifact: the circuit's gates and one shuffled
/// ciphertext table per gate.
pub struct Classic {
    pub input_length: usize,
    pub output_length: usize,
    pub gates: Vec<(usize, Gate)>,
    pub ciphers: Vec<Vec<Vec<u8>>>,
}

impl GarbledEncoder<Vec<u8>> for ClassicEncoder {
    open spec fn num_inputs(&self) -> nat {
        self.inner@.len()
    }

    open spec fn label_spec(&self, i: int, v: bool) -> Seq<u8> {
        if v {
            self.inner@[i].1@
        } else {
            self.inner@[i].0@
        }
    }

    fn encode(&self, input: &Vec<bool>) -> (r: Result<Vec<Vec<u8>>, EvalError>) {
        if input.len() != self.inner.len() {
            return Err(EvalError::LengthMismatch);
        }
        let mut out: Vec<Vec<u8>> = Vec::new();
        let mut i: usize = 0;
        while i < input.len()
            invariant
                input@.len() == self.inner@.len(),
                i <= input@.len(),
                out@.len() == i,
                forall|j: int| 0 <= j < i ==> (#[trigger] out@[j])@ == self.label_spec(
                    j,
                    input@[j],
                ),
            decreases input@.len() - i,
        {
            if input[i] {
                out.push(clone_label(&self.inner[i].1));
            } else {
                out.push(clone_label(&self.inner[i].0));
            }
            i = i + 1;
        }
        Ok(out)
    }
}

impl GarbledDecoder<Vec<u8>> for ClassicDecoder {
    open spec fn num_outputs(&self) -> nat {
        self.inner@.len()
    }

    open spec fn decode_ok(&self, input: Seq<Seq<u8>>) -> bool {
        input.len() == self.inner@.len() && forall|i: int|
            0 <= i < input.len() ==> (#[trigger] input[i]) == self.inner@[i].1@ || input[i]
                == self.inner@[i].0@
    }

    open spec fn decode_spec(&self, input: Seq<Seq<u8>>) -> Seq<bool> {
        Seq::new(input.len(), |i: int| input[i] == self.inner@[i].1@)
    }

    open spec fn decode_err(&self, input: Seq<Seq<u8>>) -> EvalError {
        if input.len() != self.inner@.len() {
            EvalError::LengthMismatch
        } else {
            EvalError::DecryptionFailure
        }
    }

    fn decode(&self, input: &Vec<Vec<u8>>) -> (r: Result<Vec<bool>, EvalError>) {
        let ghost iv = seq_views(input@);
        if input.len() != self.inner.len() {
            proof {
                assert(iv.len() == input@.len());
            }
            return Err(EvalError::LengthMismatch);
        }
        let mut out: Vec<bool> = Vec::new();
        let mut i: usize = 0;
        while i < input.len()
            invariant
                iv == seq_views(input@),
                iv.len() == input@.len(),
                input@.len() == self.inner@.len(),
                i <= input@.len(),
                out@.len() == i,
                forall|j: int| 0 <= j < i ==> (#[trigger] iv[j]) == self.inner@[j].1@ || iv[j]
                    == self.inner@[j].0@,
                forall|j: int| 0 <= j < i ==> (#[trigger] out@[j]) == (iv[j] == self.inner@[j].1@),
            decreases input@.len() - i,
        {
            if eq(&input[i], &self.inner[i].1) {
                out.push(true);
            } else if eq(&input[i], &self.inner[i].0) {
                out.push(false);
                assert(iv[i as int] != self.inner@[i as int].1@);
            } else {
                assert(iv[i as int] != self.inner@[i as int].1@ && iv[i as int]
                    != self.inner@[i as int].0@);
                return Err(EvalError::DecryptionFailure);
            }
            i = i + 1;
        }
        proof {
            assert(self.decode_ok(iv));
            assert(out@ =~= self.decode_spec(iv));
        }
        Ok(out)
    }
}

/// Two sequences with the same multiset hold strings of the same width.
pub proof fn lemma_multiset_widths(pre: Seq<Seq<u8>>, post: Seq<Seq<u8>>, w: nat)
    requires
        pre.to_multiset() == post.to_multiset(),
        forall|i: int| 0 <= i < pre.len() ==> (#[trigger] pre[i]).len() == w,
    ensures
        forall|j: int| 0 <= j < post.len() ==> (#[trigger] post[j]).len() == w,
{
    pre.to_multiset_ensures();
    post.to_multiset_ensures();
    assert forall|j: int| 0 <= j < post.len() implies (#[trigger] post[j]).len() == w by {
        let x = post[j];
        assert(post.contains(x));
        assert(pre.to_multiset().count(x) > 0);
        assert(pre.contains(x));
        let i = choose|i: int| 0 <= i < pre.len() && pre[i] == x;
        assert(pre[i].len() == w);
    }
}

/// Builds one table row for a gate and one input combination.
fn classic_make_row(
    labels: &Vec<(Vec<u8>, Vec<u8>)>,
    o: usize,
    g: Gate,
    va: bool,
    vb: bool,
) -> (r: Vec<u8>)
    requires
        o < labels@.len(),
        crate::circuit::gate_reads_in_range(g, labels@.len() as int),
        forall|w: int| 0 <= w < labels@.len() ==> (#[trigger] labels@[w]).0@.len() == 16
            && labels@[w].1@.len() == 16,
    ensures
        r@ == classic_row(pair_views(labels@), o, g, va, vb),
        r@.len() == 32,
{
    let ghost lseq = pair_views(labels@);
    let h = match g {
        Gate::Inv(a) => {
            let la = if va {
                &pair_at(labels, a).1
            } else {
                &pair_at(labels, a).0
            };
            proof {
                assert(lseq[a as int] == (labels@[a as int].0@, labels@[a as int].1@));
            }
            hash_unary(la, o as u64)
        },
        Gate::And(a, b) => {
            let la = if va {
                &pair_at(labels, a).1
            } else {
                &pair_at(labels, a).0
            };
            let lb = if vb {
                &pair_at(labels, b).1
            } else {
                &pair_at(labels, b).0
            };
            proof {
                assert(lseq[a as int] == (labels@[a as int].0@, labels@[a as int].1@));
                assert(lseq[b as int] == (labels@[b as int].0@, labels@[b as int].1@));
            }
            hash_binary(la, lb, o as u64)
        },
        Gate::Xor(a, b) => {
            let la = if va {
                &pair_at(labels, a).1
            } else {
                &pair_at(labels, a).0
            };
            let lb = if vb {
                &pair_at(labels, b).1
            } else {
                &pair_at(labels, b).0
            };
            proof {
                assert(lseq[a as int] == (labels@[a as int].0@, labels@[a as int].1@));
                assert(lseq[b as int] == (labels@[b as int].0@, labels@[b as int].1@));
            }
            hash_binary(la, lb, o as u64)
        },
    };
    let f = match g {
        Gate::Inv(_) => !va,
        Gate::And(_, _) => va && vb,
        Gate::Xor(_, _) => va != vb,
    };
    let mut padded = if f {
        clone_label(&pair_at(labels, o).1)
    } else {
        clone_label(&pair_at(labels, o).0)
    };
    let mut z = zero_block(16);
    padded.append(&mut z);
    proof {
        assert(lseq[o as int] == (labels@[o as int].0@, labels@[o as int].1@));
        assert(padded@ =~= sel(lseq[o as int], gate_fn(g, va, vb)) + zero_seq(16));
    }
    xor_blocks(&padded, &h)
}

/// Builds the four-row table of a binary gate, in truth-table order.
fn garble_binary(
    a: usize,
    b: usize,
    output: usize,
    labels: &Vec<(Vec<u8>, Vec<u8>)>,
    g: Gate,
) -> (r: Vec<Vec<u8>>)
    requires
        g is And || g is Xor,
        output < labels@.len(),
        crate::circuit::gate_reads_in_range(g, labels@.len() as int),
        (g is And ==> g == Gate::And(a, b)) && (g is Xor ==> g == Gate::Xor(a, b)),
        forall|w: int| 0 <= w < labels@.len() ==> (#[trigger] labels@[w]).0@.len() == 16
            && labels@[w].1@.len() == 16,
    ensures
        row_views(r@) == classic_rows(pair_views(labels@), output, g),
        r@.len() == 4,
        forall|j: int| 0 <= j < r@.len() ==> (#[trigger] r@[j])@.len() == 32,
{
    let mut rows: Vec<Vec<u8>> = Vec::new();
    rows.push(classic_make_row(labels, output, g, false, false));
    rows.push(classic_make_row(labels, output, g, false, true));
    rows.push(classic_make_row(labels, output, g, true, false));
    rows.push(classic_make_row(labels, output, g, true, true));
    proof {
        assert(row_views(rows@) =~= classic_rows(pair_views(labels@), output, g));
    }
    rows
}

impl ClassicDecoder {
    /// The two stored labels of every output wire differ, so decoding can
    /// tell true from false. Freshly sampled labels satisfy this with
    /// overwhelming probability, but it is not certain, so it stays a
    /// hypothesis rather than a guarantee.
    pub open spec fn nondegenerate(self) -> bool {
        forall|j: int|
            0 <= j < self.inner@.len() ==> (#[trigger] self.inner@[j]).0@ != self.inner@[j].1@
    }
}

impl GarbledCircuit<ClassicEncoder, ClassicDecoder> for Classic {
    type Label = Vec<u8>;

    open spec fn wf(&self) -> bool {
        self.classic_wf()
    }

    fn garble_compute(
        &self,
        encoder: &ClassicEncoder,
        decoder: &ClassicDecoder,
        input: &Vec<bool>,
    ) -> (r: Result<Vec<bool>, EvalError>)
        ensures
            (r is Ok) <==> ({
                &&& input@.len() == encoder.num_inputs()
                &&& self.eval_ok(encoded_views(encoder, input@))
                &&& decoder.decode_ok(self.eval_spec(encoded_views(encoder, input@)))
            }),
            r matches Ok(bits) ==> bits@ == decoder.decode_spec(
                self.eval_spec(encoded_views(encoder, input@)),
            ),
            r matches Err(e) ==> e == (if input@.len() != encoder.num_inputs() {
                EvalError::LengthMismatch
            } else if !self.eval_ok(encoded_views(encoder, input@)) {
                self.eval_err(encoded_views(encoder, input@))
            } else {
                decoder.decode_err(self.eval_spec(encoded_views(encoder, input@)))
            }),
            forall|c: Circuit|
                (#[trigger] self.is_garbling_of(encoder, decoder, c)) && input@.len()
                    == c.input_length && c.outputs_populated() && decoder.nondegenerate() ==> (r
                    == Err::<Vec<bool>, EvalError>(EvalError::DecryptionFailure) || (r is Ok
                    && r->Ok_0@ == c.output_of(input@))),
    {
        let labels = match encoder.encode(input) {
            Ok(l) => l,
            Err(e) => {
                proof {
                    assert forall|c: Circuit|
                        (#[trigger] self.is_garbling_of(encoder, decoder, c)) && input@.len()
                            == c.input_length && c.outputs_populated()
                            && decoder.nondegenerate() implies false by {
                        let lw = choose|lw: Seq<(Seq<u8>, Seq<u8>)>|
                            self.garbling_with(*encoder, *decoder, c, lw);
                        assert(encoder.num_inputs() == c.input_length);
                    }
                }
                return Err(e);
            },
        };
        let ghost lv = seq_views(labels@);
        proof {
            assert(lv =~= encoded_views(encoder, input@));
        }
        let outputs = match self.evaluate(labels) {
            Ok(o) => o,
            Err(e) => {
                proof {
                    assert forall|c: Circuit|
                        (#[trigger] self.is_garbling_of(encoder, decoder, c)) && input@.len()
                            == c.input_length && c.outputs_populated()
                            && decoder.nondegenerate() implies e
                        == EvalError::DecryptionFailure by {
                        let lw = choose|lw: Seq<(Seq<u8>, Seq<u8>)>|
                            self.garbling_with(*encoder, *decoder, c, lw);
                        assert(lv.len() == input@.len());
                        assert(self.input_length == c.input_length);
                    }
                }
                return Err(e);
            },
        };
        let result = decoder.decode(&outputs);
        proof {
            assert(seq_views(outputs@) == self.eval_spec(encoded_views(encoder, input@)));
            assert forall|c: Circuit|
                (#[trigger] self.is_garbling_of(encoder, decoder, c)) && input@.len()
                    == c.input_length && c.outputs_populated() && decoder.nondegenerate() implies (
            result == Err::<Vec<bool>, EvalError>(EvalError::DecryptionFailure) || (result is Ok
                && result->Ok_0@ == c.output_of(input@))) by {
                let lw = choose|lw: Seq<(Seq<u8>, Seq<u8>)>|
                    self.garbling_with(*encoder, *decoder, c, lw);
                assert forall|j: int| 0 <= j < c.output_length implies (#[trigger] lw[
                c.wire_count() - c.output_length + j]).0 != lw[c.wire_count() - c.output_length
                    + j].1 by {
                    assert(pair_views(decoder.inner@)[j] == lw[c.wire_count() - c.output_length
                        + j]);
                    assert(pair_views(decoder.inner@)[j] == (
                        decoder.inner@[j].0@,
                        decoder.inner@[j].1@,
                    ));
                }
                crate::classic_correct::lemma_classic_garble_correct(
                    *self,
                    *encoder,
                    *decoder,
                    c,
                    lw,
                    input@,
                );
                assert(lv =~= crate::classic_correct::cls_encode_views(lw, input@));
                assert(self.eval_ok(lv));
            }
        }
        result
    }

    open spec fn eval_ok(&self, input: Seq<Seq<u8>>) -> bool {
        input.len() == self.input_length && self.eval_ok_upto(input, self.gates@.len() as int)
    }

    open spec fn eval_spec(&self, input: Seq<Seq<u8>>) -> Seq<Seq<u8>> {
        self.eval_after_c(input, self.gates@.len() as int).skip(
            self.wire_count() - self.output_length,
        )
    }

    open spec fn eval_err(&self, input: Seq<Seq<u8>>) -> EvalError {
        if input.len() != self.input_length {
            EvalError::LengthMismatch
        } else {
            EvalError::DecryptionFailure
        }
    }

    open spec fn is_garbling_of(
        &self,
        encoder: &ClassicEncoder,
        decoder: &ClassicDecoder,
        c: Circuit,
    ) -> bool {
        exists|labels: Seq<(Seq<u8>, Seq<u8>)>| self.garbling_with(*encoder, *decoder, c, labels)
    }

    #[verifier::rlimit(100)]
    #[verifier::spinoff_prover]
    fn evaluate(&self, input: Vec<Vec<u8>>) -> (r: Result<Vec<Vec<u8>>, EvalError>) {
        let ghost iv = seq_views(input@);
        proof {
            assert(iv.len() == input@.len());
        }
        if input.len() != self.input_length {
            proof {
                assert(self.eval_err(seq_views(input@)) == EvalError::LengthMismatch);
            }
            return Err(EvalError::LengthMismatch);
        }
        let n = self.input_length + self.gates.len();
        let mut values = input;
        let mut w: usize = self.input_length;
        proof {
            assert(seq_views(values@) =~= self.eval_after_c(iv, 0).take(self.input_length as int));
        }
        while w < n
            invariant
                self.input_length <= w <= n,
                n == self.wire_count(),
                self.classic_wf(),
                values@.len() == w,
                seq_views(values@) =~= self.eval_after_c(iv, 0).take(w as int),
                iv.len() == self.input_length,
            decreases n - w,
        {
            values.push(Vec::new());
            assert(seq_views(values@) =~= self.eval_after_c(iv, 0).take(w as int + 1));
            w = w + 1;
        }
        assert(seq_views(values@) =~= self.eval_after_c(iv, 0));

        let mut k: usize = 0;
        while k < self.gates.len()
            invariant
                k <= self.gates@.len(),
                n == self.wire_count(),
                self.classic_wf(),
                iv == seq_views(input@),
                iv.len() == self.input_length,
                values@.len() == n,
                seq_views(values@) == self.eval_after_c(iv, k as int),
                self.eval_ok_upto(iv, k as int),
            decreases self.gates@.len() - k,
        {
            let ghost prev = self.eval_after_c(iv, k as int);
            let (o, g) = self.gates[k];
            let h = match g {
                Gate::Inv(a) => hash_unary(&values[a], o as u64),
                Gate::And(a, b) => {
                    let la = clone_label(&values[a]);
                    hash_binary(&la, &values[b], o as u64)
                },
                Gate::Xor(a, b) => {
                    let la = clone_label(&values[a]);
                    hash_binary(&la, &values[b], o as u64)
                },
            };
            proof {
                assert(h@ == self.gate_h(prev, k as int));
            }
            let ghost table = row_views(self.ciphers@[k as int]@);
            let mut found: Option<Vec<u8>> = None;
            let mut j: usize = 0;
            let row_count = self.ciphers[k].len();
            while j < row_count
                invariant
                    j <= row_count,
                    k < self.gates@.len(),
                    self.classic_wf(),
                    n == self.wire_count(),
                    iv == seq_views(input@),
                    iv.len() == self.input_length,
                    self.eval_ok_upto(iv, k as int),
                    h@ == self.gate_h(self.eval_after_c(iv, k as int), k as int),
                    row_count == self.ciphers@[k as int]@.len(),
                    table == row_views(self.ciphers@[k as int]@),
                    table.len() == row_count,
                    h@.len() == 32,
                    match found {
                        Option::None => zt_count(table, h@, j as int) == 0 && zt_first(
                            table,
                            h@,
                            j as int,
                        ) == -1,
                        Option::Some(v) => zt_count(table, h@, j as int) == 1 && 0 <= zt_first(
                            table,
                            h@,
                            j as int,
                        ) < j && v@ == xor_seq(table[zt_first(table, h@, j as int)], h@),
                    },
                decreases row_count - j,
            {
                let row = classic_row_at(&self.ciphers, k, j);
                proof {
                    assert(table[j as int] == row@);
                }
                let x = xor_blocks(row, &h);
                if has_zero_tag(&x) {
                    if found.is_some() {
                        proof {
                            assert(zt_count(table, h@, j as int + 1) == 2);
                            lemma_zt_count_monotone(table, h@, j as int + 1, table.len() as int);
                            assert(zt_count(table, h@, table.len() as int) != 1);
                            assert(!self.eval_ok_upto(iv, k as int + 1));
                            lemma_classic_ok_monotone_contra(
                                *self,
                                iv,
                                k as int + 1,
                                self.gates@.len() as int,
                            );
                            assert(!self.eval_ok(seq_views(input@)));
                        }
                        return Err(EvalError::DecryptionFailure);
                    }
                    found = Some(x);
                }
                j = j + 1;
            }
            match found {
                Option::None => {
                    proof {
                        assert(zt_count(table, h@, table.len() as int) == 0);
                        assert(!self.eval_ok_upto(iv, k as int + 1));
                        lemma_classic_ok_monotone_contra(
                            *self,
                            iv,
                            k as int + 1,
                            self.gates@.len() as int,
                        );
                        assert(!self.eval_ok(seq_views(input@)));
                    }
                    return Err(EvalError::DecryptionFailure);
                },
                Option::Some(mut v) => {
                    v.truncate(16);
                    proof {
                        let idx = zt_first(table, h@, table.len() as int);
                        assert(0 <= idx < table.len());
                        assert(v@ == xor_seq(table[idx], h@).subrange(0, 16));
                    }
                    values[o] = v;
                    proof {
                        assert(seq_views(values@) =~= self.eval_after_c(iv, k as int + 1));
                    }
                },
            }
            k = k + 1;
        }

        let start = n - self.output_length;
        let mut out: Vec<Vec<u8>> = Vec::new();
        let mut q: usize = start;
        while q < n
            invariant
                start <= q <= n,
                n == self.wire_count(),
                start == n - self.output_length,
                values@.len() == n,
                out@.len() == q - start,
                forall|p: int| 0 <= p < out@.len() ==> (#[trigger] out@[p])@ == values@[start + p]@,
            decreases n - q,
        {
            out.push(clone_label(&values[q]));
            q = q + 1;
        }
        proof {
            assert(seq_views(out@) =~= seq_views(values@).skip(start as int));
        }
        Ok(out)
    }

    #[verifier::rlimit(100)]
    #[verifier::spinoff_prover]
    fn garble_circuit(circuit: &Circuit) -> (r: (Self, ClassicEncoder, ClassicDecoder))
        ensures
            r.0.gates@ == circuit.gates@,
            r.0.input_length == circuit.input_length,
            r.0.output_length == circuit.output_length,
            r.0.ciphers@.len() == circuit.gates@.len(),
    {
        let n = circuit.input_length + circuit.gates.len();
        let mut labels: Vec<(Vec<u8>, Vec<u8>)> = Vec::new();
        let mut i: usize = 0;
        while i < n
            invariant
                i <= n,
                labels@.len() == i,
                forall|w: int| 0 <= w < i ==> (#[trigger] labels@[w]).0@.len() == 16
                    && labels@[w].1@.len() == 16,
            decreases n - i,
        {
            let l0 = random_bytes(16);
            let l1 = random_bytes(16);
            labels.push((l0, l1));
            i = i + 1;
        }
        let ghost lseq = pair_views(labels@);

        let mut enc_inner: Vec<(Vec<u8>, Vec<u8>)> = Vec::new();
        let mut e: usize = 0;
        while e < circuit.input_length
            invariant
                e <= circuit.input_length,
                circuit.input_length <= n,
                labels@.len() == n,
                enc_inner@.len() == e,
                forall|j: int| 0 <= j < e ==> (#[trigger] enc_inner@[j]).0@ == labels@[j].0@
                    && enc_inner@[j].1@ == labels@[j].1@,
            decreases circuit.input_length - e,
        {
            let p0 = clone_label(&pair_at(&labels, e).0);
            let p1 = clone_label(&pair_at(&labels, e).1);
            enc_inner.push((p0, p1));
            e = e + 1;
        }

        let start = n - circuit.output_length;
        let mut dec_inner: Vec<(Vec<u8>, Vec<u8>)> = Vec::new();
        let mut d: usize = 0;
        while d < circuit.output_length
            invariant
                d <= circuit.output_length,
                start == n - circuit.output_length,
                circuit.output_length <= n,
                labels@.len() == n,
                dec_inner@.len() == d,
                forall|j: int| 0 <= j < d ==> (#[trigger] dec_inner@[j]).0@ == labels@[start
                    + j].0@ && dec_inner@[j].1@ == labels@[start + j].1@,
            decreases circuit.output_length - d,
        {
            let p0 = clone_label(&pair_at(&labels, start + d).0);
            let p1 = clone_label(&pair_at(&labels, start + d).1);
            dec_inner.push((p0, p1));
            d = d + 1;
        }

        let ghost c = *circuit;
        let mut ciphers: Vec<Vec<Vec<u8>>> = Vec::new();
        let mut k: usize = 0;
        while k < circuit.gates.len()
            invariant
                k <= circuit.gates@.len(),
                c == *circuit,
                c.wf(),
                n == c.wire_count(),
                labels@.len() == n,
                lseq == pair_views(labels@),
                forall|w: int| 0 <= w < n ==> (#[trigger] labels@[w]).0@.len() == 16
                    && labels@[w].1@.len() == 16,
                ciphers@.len() == k,
                forall|q: int| 0 <= q < k ==> row_views((#[trigger] ciphers@[q])@).to_multiset()
                    == classic_rows(lseq, c.gates@[q].0, c.gates@[q].1).to_multiset(),
                forall|q: int, j: int|
                    0 <= q < k && 0 <= j < ciphers@[q]@.len() ==> (#[trigger] ciphers@[q]@[j])@.len()
                        == 32,
            decreases circuit.gates@.len() - k,
        {
            proof {
                assert(c.gates@[k as int].0 < c.wire_count());
            }
            let (o, g) = circuit.gates[k];
            let mut rows: Vec<Vec<u8>> = match g {
                Gate::Inv(a) => {
                    let mut t: Vec<Vec<u8>> = Vec::new();
                    t.push(classic_make_row(&labels, o, g, false, false));
                    t.push(classic_make_row(&labels, o, g, true, false));
                    proof {
                        assert(row_views(t@) =~= classic_rows(lseq, o, g));
                    }
                    t
                },
                Gate::And(a, b) => garble_binary(a, b, o, &labels, g),
                Gate::Xor(a, b) => garble_binary(a, b, o, &labels, g),
            };
            let ghost pre = row_views(rows@);
            proof {
                assert(pre == classic_rows(lseq, o, g));
            }
            shuffle_rows(&mut rows);
            proof {
                lemma_multiset_widths(pre, row_views(rows@), 32);
            }
            ciphers.push(rows);
            proof {
                assert forall|q: int, j: int|
                    0 <= q < k + 1 && 0 <= j < ciphers@[q]@.len() implies (#[trigger] ciphers@[q]@[
                    j])@.len() == 32 by {
                    if q == k {
                        assert(row_views(ciphers@[q]@)[j].len() == 32);
                    }
                }
            }
            k = k + 1;
        }

        let gc = Classic {
            input_length: circuit.input_length,
            output_length: circuit.output_length,
            gates: clone_gates(&circuit.gates),
            ciphers,
        };
        let enc = ClassicEncoder { inner: enc_inner };
        let dec = ClassicDecoder { inner: dec_inner };
        proof {
            assert(gc.garbling_with(enc, dec, c, lseq));
            assert(gc.classic_wf());
        }
        (gc, enc, dec)
    }
}

/// Borrows one ciphertext row out of a gate's table.
fn classic_row_at(ciphers: &Vec<Vec<Vec<u8>>>, k: usize, j: usize) -> (r: &Vec<u8>)
    requires
        k < ciphers@.len(),
        j < ciphers@[k as int]@.len(),
    ensures
        r@ == ciphers@[k as int]@[j as int]@,
{
    &ciphers[k][j]
}

/// A copy of a list of gates, structurally identical.
fn clone_gates(gates: &Vec<(usize, Gate)>) -> (r: Vec<(usize, Gate)>)
    ensures
        r@ == gates@,
{
    let mut out: Vec<(usize, Gate)> = Vec::new();
    let mut i: usize = 0;
    while i < gates.len()
        invariant
            i <= gates@.len(),
            out@ =~= gates@.take(i as int),
        decreases gates@.len() - i,
    {
        let (o, g) = gates[i];
        out.push((o, g));
        assert(out@ =~= gates@.take(i as int + 1));
        i = i + 1;
    }
    assert(out@ =~= gates@);
    out
}

/// Decoding inverts encoding: when each held output label is the one a
/// Classic garbler stored for bit `x_j`, and the two stored labels of each
/// output wire differ, the decoder returns exactly the bits `x`.
pub proof fn lemma_classic_decode_inverse(dec: ClassicDecoder, x: Seq<bool>)
    requires
        dec.inner@.len() == x.len(),
        forall|j: int| 0 <= j < x.len() ==> (#[trigger] dec.inner@[j]).0@ != dec.inner@[j].1@,
    ensures
        dec.decode_ok(
            Seq::new(
                x.len(),
                |j: int| sel((dec.inner@[j].0@, dec.inner@[j].1@), x[j]),
            ),
        ),
        dec.decode_spec(
            Seq::new(
                x.len(),
                |j: int| sel((dec.inner@[j].0@, dec.inner@[j].1@), x[j]),
            ),
        ) == x,
{
    let labels = Seq::new(x.len(), |j: int| sel((dec.inner@[j].0@, dec.inner@[j].1@), x[j]));
    assert(dec.decode_spec(labels) =~= x);
}

/// Failure at one gate rules out success of the whole run.
pub proof fn lemma_classic_ok_monotone_contra(gc: Classic, input: Seq<Seq<u8>>, k1: int, k2: int)
    requires
        k1 <= k2,
        !gc.eval_ok_upto(input, k1),
    ensures
        !gc.eval_ok_upto(input, k2),
{
    if gc.eval_ok_upto(input, k2) {
        lemma_classic_ok_monotone(gc, input, k1, k2);
    }
}

} // verus!
