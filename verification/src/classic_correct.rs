use vstd::prelude::*;

use crate::blocks::{lemma_xor_cancel, xor_seq, zero_seq};
use crate::circuit::{gate_reads_populated, gate_value, upd, Circuit, Gate};
use crate::classic::{
    classic_row, classic_rows, gate_fn, lemma_classic_ok_monotone, tag_zero, zt_count, zt_first,
    Classic, ClassicDecoder, ClassicEncoder,
};
use crate::garble::{encoded_views, GarbledCircuit, GarbledDecoder, GarbledEncoder};
use crate::half_gates::sel;

verus! {

/// The labels a Classic evaluator holds for the given plaintext input bits.
pub open spec fn cls_encode_views(labels: Seq<(Seq<u8>, Seq<u8>)>, input: Seq<bool>) -> Seq<
    Seq<u8>,
> {
    Seq::new(input.len(), |i: int| sel(labels[i], input[i]))
}

/// The evaluator's label table always has one slot per wire.
pub proof fn lemma_cls_eval_len(gc: Classic, input: Seq<Seq<u8>>, k: int)
    ensures
        gc.eval_after_c(input, k).len() == input.len() + gc.gates@.len(),
    decreases (if k > 0 {
        k
    } else {
        0
    }),
{
    if k > 0 {
        lemma_cls_eval_len(gc, input, k - 1);
    }
}

/// Zero-tag counts are never negative.
proof fn lemma_zt_count_nonneg(table: Seq<Seq<u8>>, h: Seq<u8>, j: int)
    ensures
        zt_count(table, h, j) >= 0,
    decreases (if j > 0 {
        j
    } else {
        0
    }),
{
    if j > 0 {
        lemma_zt_count_nonneg(table, h, j - 1);
    }
}

/// A table whose zero-tag rows number zero has no first zero-tag row.
proof fn lemma_zt_count_zero(table: Seq<Seq<u8>>, h: Seq<u8>, j: int)
    requires
        zt_count(table, h, j) == 0,
    ensures
        zt_first(table, h, j) == -1,
    decreases (if j > 0 {
        j
    } else {
        0
    }),
{
    if j > 0 {
        lemma_zt_count_nonneg(table, h, j - 1);
        lemma_zt_count_zero(table, h, j - 1);
    }
}

/// A zero-tag row below `j` is counted at least once.
proof fn lemma_zt_count_at(table: Seq<Seq<u8>>, h: Seq<u8>, ridx: int, j: int)
    requires
        0 <= ridx < j,
        tag_zero(xor_seq(table[ridx], h)),
    ensures
        zt_count(table, h, j) >= 1,
    decreases j,
{
    lemma_zt_count_nonneg(table, h, j - 1);
    if ridx < j - 1 {
        lemma_zt_count_at(table, h, ridx, j - 1);
    }
}

/// When exactly one row of the table has a zero tag, any zero-tag row is
/// the first one.
proof fn lemma_zt_unique(table: Seq<Seq<u8>>, h: Seq<u8>, ridx: int, j: int)
    requires
        0 <= ridx < j,
        tag_zero(xor_seq(table[ridx], h)),
        zt_count(table, h, j) == 1,
    ensures
        zt_first(table, h, j) == ridx,
    decreases j,
{
    lemma_zt_count_nonneg(table, h, j - 1);
    if ridx == j - 1 {
        assert(zt_count(table, h, j - 1) == 0);
        lemma_zt_count_zero(table, h, j - 1);
    } else {
        lemma_zt_count_at(table, h, ridx, j - 1);
        assert(zt_count(table, h, j - 1) == 1);
        lemma_zt_unique(table, h, ridx, j - 1);
    }
}

/// The joint state of Classic evaluation and the plaintext run after `k`
/// gates, when every gate so far found exactly one zero-tag row: each
/// populated wire holds the label the garbler assigned to its truth value.
pub open spec fn classic_inv_at(
    gc: Classic,
    c: Circuit,
    labels: Seq<(Seq<u8>, Seq<u8>)>,
    input: Seq<bool>,
    k: int,
) -> bool {
    let vals = gc.eval_after_c(cls_encode_views(labels, input), k);
    let vt = c.wires_after(input, k);
    let pop = c.populated_after(k);
    &&& vals.len() == c.wire_count()
    &&& vt.len() == c.wire_count()
    &&& pop.len() == c.wire_count()
    &&& (forall|w: int|
        0 <= w < c.wire_count() && pop[w] ==> (#[trigger] vals[w]) == sel(labels[w], vt[w]))
    &&& (forall|w: int| 0 <= w < c.wire_count() && !pop[w] ==> (#[trigger] vt[w]) == false)
}

/// The invariant holds before any gate runs.
#[verifier::rlimit(50)]
#[verifier::spinoff_prover]
proof fn lemma_classic_inv_base(
    gc: Classic,
    enc: ClassicEncoder,
    dec: ClassicDecoder,
    c: Circuit,
    labels: Seq<(Seq<u8>, Seq<u8>)>,
    input: Seq<bool>,
)
    requires
        gc.garbling_with(enc, dec, c, labels),
        input.len() == c.input_length,
    ensures
        classic_inv_at(gc, c, labels, input, 0),
{
    let n = c.wire_count();
    let iv = cls_encode_views(labels, input);
    lemma_cls_eval_len(gc, iv, 0);
    crate::circuit::lemma_wires_after_len(c, input, 0);
    crate::circuit::lemma_populated_after_len(c, 0);
    let vals = gc.eval_after_c(iv, 0);
    let vt = c.wires_after(input, 0);
    let pop = c.populated_after(0);
    assert forall|w: int| 0 <= w < n && pop[w] implies (#[trigger] vals[w]) == sel(
        labels[w],
        vt[w],
    ) by {
        assert(w < c.input_length);
        assert(vals[w] == iv[w]);
        assert(vt[w] == input[w]);
    }
    assert forall|w: int| 0 <= w < n && !pop[w] implies (#[trigger] vt[w]) == false by {
        assert(w >= c.input_length);
    }
}

/// One successfully decrypted gate preserves the invariant.
#[verifier::rlimit(100)]
#[verifier::spinoff_prover]
proof fn lemma_classic_inv_step(
    gc: Classic,
    enc: ClassicEncoder,
    dec: ClassicDecoder,
    c: Circuit,
    labels: Seq<(Seq<u8>, Seq<u8>)>,
    input: Seq<bool>,
    k: int,
)
    requires
        gc.garbling_with(enc, dec, c, labels),
        input.len() == c.input_length,
        1 <= k <= c.gates@.len(),
        gc.eval_ok_upto(cls_encode_views(labels, input), k),
        classic_inv_at(gc, c, labels, input, k - 1),
    ensures
        classic_inv_at(gc, c, labels, input, k),
{
    let n = c.wire_count();
    let iv = cls_encode_views(labels, input);
    lemma_cls_eval_len(gc, iv, k - 1);
    lemma_cls_eval_len(gc, iv, k);
    crate::circuit::lemma_wires_after_len(c, input, k - 1);
    crate::circuit::lemma_wires_after_len(c, input, k);
    crate::circuit::lemma_populated_after_len(c, k - 1);
    crate::circuit::lemma_populated_after_len(c, k);
    let valsp = gc.eval_after_c(iv, k - 1);
    let vtp = c.wires_after(input, k - 1);
    let popp = c.populated_after(k - 1);
    let vals = gc.eval_after_c(iv, k);
    let vt = c.wires_after(input, k);
    let pop = c.populated_after(k);
    let o = c.gates@[k - 1].0;
    let g = c.gates@[k - 1].1;
    assert(o < n && gate_reads_populated(g, popp));
    assert(gc.gates@ == c.gates@);
    assert(pop == upd(popp, o as int, true));
    assert(vt == upd(vtp, o as int, gate_value(g, vtp)));

    let table = crate::blocks::row_views(gc.ciphers@[k - 1]@);
    let h = gc.gate_h(valsp, k - 1);
    let f = gate_value(g, vtp);
    let cr = match g {
        Gate::Inv(a) => classic_row(labels, o, g, vtp[a as int], false),
        Gate::And(a, b) => classic_row(labels, o, g, vtp[a as int], vtp[b as int]),
        Gate::Xor(a, b) => classic_row(labels, o, g, vtp[a as int], vtp[b as int]),
    };
    let rows = classic_rows(labels, o, g);
    // The correct row is in the (shuffled) table.
    assert(rows.contains(cr)) by {
        match g {
            Gate::Inv(a) => {
                if vtp[a as int] {
                    assert(rows[1] == cr);
                } else {
                    assert(rows[0] == cr);
                }
            },
            Gate::And(a, b) => {
                let idx: int = (if vtp[a as int] {
                    2int
                } else {
                    0int
                }) + (if vtp[b as int] {
                    1int
                } else {
                    0int
                });
                assert(rows[idx] == cr);
            },
            Gate::Xor(a, b) => {
                let idx: int = (if vtp[a as int] {
                    2int
                } else {
                    0int
                }) + (if vtp[b as int] {
                    1int
                } else {
                    0int
                });
                assert(rows[idx] == cr);
            },
        }
    }
    assert(table.to_multiset() == rows.to_multiset());
    rows.to_multiset_ensures();
    table.to_multiset_ensures();
    assert(rows.to_multiset().count(cr) > 0);
    assert(table.to_multiset().count(cr) > 0);
    assert(table.contains(cr));
    let ridx = choose|ri: int| 0 <= ri < table.len() && table[ri] == cr;

    // The evaluator's digest is the correct row's digest, and decrypting
    // the correct row reveals the padded output label.
    let pad = sel(labels[o as int], gate_fn(g, vtp_a(g, vtp), vtp_b(g, vtp))) + zero_seq(16);
    assert(labels[o as int].0.len() == 16 && labels[o as int].1.len() == 16);
    assert(pad.len() == 32);
    assert(h == (match g {
        Gate::Inv(a) => crate::classic::hash1(sel(labels[a as int], vtp[a as int]), o as u64),
        Gate::And(a, b) => crate::classic::hash2(
            sel(labels[a as int], vtp[a as int]),
            sel(labels[b as int], vtp[b as int]),
            o as u64,
        ),
        Gate::Xor(a, b) => crate::classic::hash2(
            sel(labels[a as int], vtp[a as int]),
            sel(labels[b as int], vtp[b as int]),
            o as u64,
        ),
    }));
    assert(cr == xor_seq(pad, h));
    lemma_xor_cancel(pad, h);
    assert(xor_seq(xor_seq(pad, h), h) == pad);
    assert(tag_zero(xor_seq(table[ridx], h))) by {
        assert(pad.subrange(16, 32) =~= zero_seq(16));
    }

    // Exactly one row decrypts cleanly, so it is the correct one.
    assert(zt_count(table, h, table.len() as int) == 1);
    lemma_zt_unique(table, h, ridx, table.len() as int);
    assert(zt_first(table, h, table.len() as int) == ridx);
    assert(vals == upd(valsp, o as int, xor_seq(table[ridx], h).subrange(0, 16)));
    assert(xor_seq(table[ridx], h).subrange(0, 16) =~= sel(labels[o as int], f));

    assert forall|w: int| 0 <= w < n && pop[w] implies (#[trigger] vals[w]) == sel(
        labels[w],
        vt[w],
    ) by {
        if w != o {
            assert(vals[w] == valsp[w] && vt[w] == vtp[w] && pop[w] == popp[w]);
        } else {
            assert(vals[w] == sel(labels[w], f) && vt[w] == f);
        }
    }
    assert forall|w: int| 0 <= w < n && !pop[w] implies (#[trigger] vt[w]) == false by {
        assert(w != o);
        assert(vt[w] == vtp[w] && pop[w] == popp[w]);
    }
}

/// A gate's plaintext value is its truth function applied to the values of
/// the wires it reads; the helpers name those two values.
pub open spec fn vtp_a(g: Gate, vtp: Seq<bool>) -> bool {
    match g {
        Gate::Inv(a) => vtp[a as int],
        Gate::And(a, b) => vtp[a as int],
        Gate::Xor(a, b) => vtp[a as int],
    }
}

/// The second wire value a gate reads; false for a unary gate.
pub open spec fn vtp_b(g: Gate, vtp: Seq<bool>) -> bool {
    match g {
        Gate::Inv(a) => false,
        Gate::And(a, b) => vtp[b as int],
        Gate::Xor(a, b) => vtp[b as int],
    }
}

/// The invariant holds after every successfully decrypted prefix.
pub proof fn lemma_classic_inv(
    gc: Classic,
    enc: ClassicEncoder,
    dec: ClassicDecoder,
    c: Circuit,
    labels: Seq<(Seq<u8>, Seq<u8>)>,
    input: Seq<bool>,
    k: int,
)
    requires
        gc.garbling_with(enc, dec, c, labels),
        input.len() == c.input_length,
        0 <= k <= c.gates@.len(),
        gc.eval_ok_upto(cls_encode_views(labels, input), k),
    ensures
        classic_inv_at(gc, c, labels, input, k),
    decreases k,
{
    if k == 0 {
        lemma_classic_inv_base(gc, enc, dec, c, labels, input);
    } else {
        lemma_classic_ok_monotone(gc, cls_encode_views(labels, input), k - 1, k);
        lemma_classic_inv(gc, enc, dec, c, labels, input, k - 1);
        lemma_classic_inv_step(gc, enc, dec, c, labels, input, k);
    }
}

/// Correctness of the Classic scheme: a garbling of a circuit whose output
/// wires are all populated and whose stored output label pairs are distinct,
/// fed the encoding of an input of the right length, either reports a
/// decryption failure or decodes to exactly the circuit's plaintext output.
#[verifier::rlimit(100)]
#[verifier::spinoff_prover]
pub proof fn lemma_classic_garble_correct(
    gc: Classic,
    enc: ClassicEncoder,
    dec: ClassicDecoder,
    c: Circuit,
    labels: Seq<(Seq<u8>, Seq<u8>)>,
    input: Seq<bool>,
)
    requires
        gc.garbling_with(enc, dec, c, labels),
        input.len() == c.input_length,
        c.outputs_populated(),
        forall|j: int| 0 <= j < c.output_length ==> (#[trigger] labels[c.wire_count()
            - c.output_length + j]).0 != labels[c.wire_count() - c.output_length + j].1,
    ensures
        enc.num_inputs() == input.len(),
        encoded_views(&enc, input) == cls_encode_views(labels, input),
        gc.eval_ok(cls_encode_views(labels, input)) ==> dec.decode_ok(
            gc.eval_spec(cls_encode_views(labels, input)),
        ) && dec.decode_spec(gc.eval_spec(cls_encode_views(labels, input))) == c.output_of(input),
        !gc.eval_ok(cls_encode_views(labels, input)) ==> gc.eval_err(
            cls_encode_views(labels, input),
        ) == crate::errors::EvalError::DecryptionFailure,
{
    let n = c.wire_count();
    let iv = cls_encode_views(labels, input);
    let total = c.gates@.len() as int;
    assert(encoded_views(&enc, input) =~= iv) by {
        assert forall|i: int| 0 <= i < input.len() implies enc.label_spec(i, input[i]) == sel(
            labels[i],
            input[i],
        ) by {
            assert(crate::half_gates::pair_views(enc.inner@)[i] == labels[i]);
            assert(crate::half_gates::pair_views(enc.inner@)[i] == (
                enc.inner@[i].0@,
                enc.inner@[i].1@,
            ));
        }
    }
    assert(iv.len() == c.input_length);
    if gc.eval_ok(iv) {
        lemma_classic_inv(gc, enc, dec, c, labels, input, total);
        lemma_cls_eval_len(gc, iv, total);
        crate::circuit::lemma_wires_after_len(c, input, total);
        let vals = gc.eval_after_c(iv, total);
        let vt = c.wires_after(input, total);
        let start = n - c.output_length;
        let outs = gc.eval_spec(iv);
        assert(outs == vals.skip(start));
        assert(outs.len() == c.output_length);
        assert forall|j: int| 0 <= j < c.output_length implies ((#[trigger] outs[j])
            == dec.inner@[j].1@ || outs[j] == dec.inner@[j].0@) && ((outs[j] == dec.inner@[j].1@)
            == vt[start + j]) by {
            let w = start + j;
            assert(c.populated_after(total)[w]);
            assert(outs[j] == vals[w]);
            assert(vals[w] == sel(labels[w], vt[w]));
            assert(crate::half_gates::pair_views(dec.inner@)[j] == labels[w]);
            assert(crate::half_gates::pair_views(dec.inner@)[j] == (
                dec.inner@[j].0@,
                dec.inner@[j].1@,
            ));
            assert(labels[w].0 != labels[w].1);
        }
        assert(dec.decode_ok(outs));
        assert(dec.decode_spec(outs) =~= c.output_of(input)) by {
            assert forall|j: int| 0 <= j < c.output_length implies dec.decode_spec(outs)[j]
                == c.output_of(input)[j] by {
                assert(dec.decode_spec(outs)[j] == (outs[j] == dec.inner@[j].1@));
                assert(c.output_of(input)[j] == vt[start + j]);
            }
            assert(dec.decode_spec(outs).len() == c.output_of(input).len());
        }
    }
}

} // verus!
