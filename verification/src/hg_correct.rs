use vstd::prelude::*;

use crate::blocks::{
    lemma_lsb_xor, lemma_xor_assoc, lemma_xor_cancel, lemma_xor_exchange, lemma_xor_self,
    lemma_xor_swap_right, lemma_xor_zero, lsb, xor_seq, zero_seq,
};
use crate::circuit::{and_count, gate_reads_populated, gate_value, upd, Circuit, Gate};
use crate::garble::{encoded_views, GarbledCircuit, GarbledDecoder, GarbledEncoder};
use crate::half_gates::{
    aes128_block, gand_count, garbled_gate_of, hg_and_w0, hg_base_labels, hg_ciphers_after,
    hg_eval_and, hg_labels_after, hg_te, hg_tg, lemma_hg_ciphers_count, pair_views, sel,
    GarbledGate, HalfGates, HalfGatesDecoder, HalfGatesEncoder,
};

verus! {

/// The labels an evaluator holds for the given plaintext input bits.
pub open spec fn hg_encode_views(
    c: Circuit,
    r: Seq<u8>,
    w0: Seq<Seq<u8>>,
    input: Seq<bool>,
) -> Seq<Seq<u8>> {
    Seq::new(input.len(), |i: int| sel(hg_base_labels(c, r, w0)[i], input[i]))
}

/// Point-and-permute correctness of one AND gate: on labels carrying truth
/// values `va` and `vb`, the evaluator's combination of the two half-gate
/// ciphertexts yields exactly the output label of `va && vb`.
pub proof fn lemma_hg_and_gate(
    key: Seq<u8>,
    r: Seq<u8>,
    la: (Seq<u8>, Seq<u8>),
    lb: (Seq<u8>, Seq<u8>),
    va: bool,
    vb: bool,
)
    requires
        r.len() == 16,
        lsb(r),
        la.0.len() == 16,
        la.1 == xor_seq(la.0, r),
        lb.0.len() == 16,
        lb.1 == xor_seq(lb.0, r),
    ensures
        hg_eval_and(key, sel(la, va), sel(lb, vb), hg_tg(key, r, la, lb), hg_te(key, la, lb))
            == sel(
            (hg_and_w0(key, r, la, lb), xor_seq(hg_and_w0(key, r, la, lb), r)),
            va && vb,
        ),
{
    let pa = lsb(la.0);
    let pb = lsb(lb.0);
    let lav = sel(la, va);
    let lbv = sel(lb, vb);
    let sa = lsb(lav);
    let sb = lsb(lbv);
    lemma_lsb_xor(la.0, r);
    lemma_lsb_xor(lb.0, r);
    assert(sa == (pa != va));
    assert(sb == (pb != vb));
    let tg = hg_tg(key, r, la, lb);
    let te = hg_te(key, la, lb);
    let w0 = hg_and_w0(key, r, la, lb);
    let lhs = hg_eval_and(key, lav, lbv, tg, te);
    let rhs = sel((w0, xor_seq(w0, r)), va && vb);
    assert(lhs.len() == 16);
    assert(rhs.len() == 16);
    assert forall|i: int| 0 <= i < 16 implies lhs[i] == rhs[i] by {
        let h0 = aes128_block(key, la.0)[i];
        let h1 = aes128_block(key, la.1)[i];
        let g0 = aes128_block(key, lb.0)[i];
        let g1 = aes128_block(key, lb.1)[i];
        let a0 = la.0[i];
        let rr = r[i];
        let tgi = tg[i];
        let tei = te[i];
        let lavi = lav[i];
        assert(aes128_block(key, lav)[i] == (if va {
            h1
        } else {
            h0
        }));
        assert(aes128_block(key, lbv)[i] == (if vb {
            g1
        } else {
            g0
        }));
        assert(tgi == (h0 ^ h1) ^ (if pb {
            rr
        } else {
            0u8
        }));
        assert(tei == (g0 ^ g1) ^ a0);
        assert(lavi == (if va {
            a0 ^ rr
        } else {
            a0
        }));
        assert(lhs[i] == ((if va {
            h1
        } else {
            h0
        }) ^ (if sa {
            tgi
        } else {
            0u8
        })) ^ ((if vb {
            g1
        } else {
            g0
        }) ^ (if sb {
            tei ^ lavi
        } else {
            0u8
        })));
        assert(w0[i] == (h0 ^ (if pa {
            tgi
        } else {
            0u8
        })) ^ (g0 ^ (if pb {
            tei ^ a0
        } else {
            0u8
        })));
        assert(rhs[i] == (if va && vb {
            w0[i] ^ rr
        } else {
            w0[i]
        }));
        assert(((if va {
            h1
        } else {
            h0
        }) ^ (if sa {
            tgi
        } else {
            0u8
        })) ^ ((if vb {
            g1
        } else {
            g0
        }) ^ (if sb {
            tei ^ lavi
        } else {
            0u8
        })) == (if va && vb {
            ((h0 ^ (if pa {
                tgi
            } else {
                0u8
            })) ^ (g0 ^ (if pb {
                tei ^ a0
            } else {
                0u8
            }))) ^ rr
        } else {
            (h0 ^ (if pa {
                tgi
            } else {
                0u8
            })) ^ (g0 ^ (if pb {
                tei ^ a0
            } else {
                0u8
            }))
        })) by (bit_vector)
            requires
                sa == (pa != va),
                sb == (pb != vb),
                tgi == (h0 ^ h1) ^ (if pb {
                    rr
                } else {
                    0u8
                }),
                tei == (g0 ^ g1) ^ a0,
                lavi == (if va {
                    a0 ^ rr
                } else {
                    a0
                }),
        ;
    }
    assert(lhs =~= rhs);
}

/// Decoding inverts encoding: when each held output label is the one a
/// Half-Gates garbler selected for bit `x_j` from a pair related by the
/// global difference, the decoder returns exactly the bits `x`.
pub proof fn lemma_hg_decode_inverse(
    dec: HalfGatesDecoder,
    r: Seq<u8>,
    w0: Seq<Seq<u8>>,
    x: Seq<bool>,
)
    requires
        r.len() == 16,
        lsb(r),
        w0.len() == x.len(),
        dec.inner@.len() == x.len(),
        forall|j: int| 0 <= j < x.len() ==> (#[trigger] w0[j]).len() == 16,
        forall|j: int| 0 <= j < x.len() ==> (#[trigger] dec.inner@[j]) == lsb(w0[j]),
    ensures
        dec.decode_ok(Seq::new(x.len(), |j: int| sel((w0[j], xor_seq(w0[j], r)), x[j]))),
        dec.decode_spec(Seq::new(x.len(), |j: int| sel((w0[j], xor_seq(w0[j], r)), x[j]))) == x,
{
    let labels = Seq::new(x.len(), |j: int| sel((w0[j], xor_seq(w0[j], r)), x[j]));
    assert forall|j: int| 0 <= j < x.len() implies (#[trigger] labels[j]).len() > 0 && (lsb(
        labels[j],
    ) != dec.inner@[j]) == x[j] by {
        lemma_lsb_xor(w0[j], r);
    }
    assert(dec.decode_spec(labels) =~= x);
}

/// The garbler's label table always has one slot per wire.
pub proof fn lemma_hg_labels_len(c: Circuit, key: Seq<u8>, r: Seq<u8>, w0: Seq<Seq<u8>>, k: int)
    ensures
        hg_labels_after(c, key, r, w0, k).len() == c.wire_count(),
    decreases (if k > 0 {
        k
    } else {
        0
    }),
{
    if k > 0 {
        lemma_hg_labels_len(c, key, r, w0, k - 1);
    }
}

/// The evaluator's label table always has one slot per wire.
pub proof fn lemma_hg_eval_len(gc: HalfGates, input: Seq<Seq<u8>>, k: int)
    ensures
        gc.eval_after(input, k).len() == input.len() + gc.gates@.len(),
    decreases (if k > 0 {
        k
    } else {
        0
    }),
{
    if k > 0 {
        lemma_hg_eval_len(gc, input, k - 1);
    }
}

/// Garbled gates carry exactly the AND gates of the plain gates.
pub proof fn lemma_gand_eq_and(gg: Seq<(usize, GarbledGate)>, cg: Seq<(usize, Gate)>, k: int)
    requires
        0 <= k <= cg.len(),
        gg.len() == cg.len(),
        forall|j: int| 0 <= j < cg.len() ==> (#[trigger] gg[j]) == (
            cg[j].0,
            garbled_gate_of(cg[j].1),
        ),
    ensures
        gand_count(gg, k) == and_count(cg, k),
    decreases k,
{
    if k > 0 {
        lemma_gand_eq_and(gg, cg, k - 1);
    }
}

/// The cipher pair emitted for the AND gate at position `k` sits at index
/// `and_count(k)` of every later cipher list, and was built from the label
/// table as it stood before that gate.
pub proof fn lemma_hg_cipher_at(
    c: Circuit,
    key: Seq<u8>,
    r: Seq<u8>,
    w0: Seq<Seq<u8>>,
    k: int,
    m: int,
)
    requires
        0 <= k < m <= c.gates@.len(),
        c.gates@[k].1 is And,
    ensures
        and_count(c.gates@, k) < hg_ciphers_after(c, key, r, w0, m).len(),
        ({
            let lt = hg_labels_after(c, key, r, w0, k);
            match c.gates@[k].1 {
                Gate::And(a, b) => hg_ciphers_after(c, key, r, w0, m)[and_count(c.gates@, k)] == (
                    hg_tg(key, r, lt[a as int], lt[b as int]),
                    hg_te(key, lt[a as int], lt[b as int]),
                ),
                _ => true,
            }
        }),
    decreases m,
{
    lemma_hg_ciphers_count(c, key, r, w0, k);
    if m == k + 1 {
        match c.gates@[k].1 {
            Gate::And(a, b) => {
                let lt = hg_labels_after(c, key, r, w0, k);
                assert(hg_ciphers_after(c, key, r, w0, m) == hg_ciphers_after(
                    c,
                    key,
                    r,
                    w0,
                    k,
                ).push((hg_tg(key, r, lt[a as int], lt[b as int]), hg_te(key, lt[a as int], lt[b as int]))));
            },
            Gate::Inv(_) => {},
            Gate::Xor(_, _) => {},
        }
    } else {
        lemma_hg_cipher_at(c, key, r, w0, k, m - 1);
        lemma_hg_ciphers_count(c, key, r, w0, m - 1);
        lemma_hg_ciphers_count(c, key, r, w0, m);
    }
}

/// The joint state of garbler, evaluator and plaintext run after `k` gates:
/// the evaluator holds exactly the label selected by the plaintext value of
/// each wire; populated wires keep the global-difference relation; untouched
/// wires hold zero labels and read false.
pub open spec fn hg_inv_at(
    gc: HalfGates,
    c: Circuit,
    r: Seq<u8>,
    w0: Seq<Seq<u8>>,
    input: Seq<bool>,
    k: int,
) -> bool {
    let ev = gc.eval_after(hg_encode_views(c, r, w0, input), k);
    let lt = hg_labels_after(c, gc.key@, r, w0, k);
    let vt = c.wires_after(input, k);
    let pop = c.populated_after(k);
    &&& ev.len() == c.wire_count()
    &&& lt.len() == c.wire_count()
    &&& vt.len() == c.wire_count()
    &&& pop.len() == c.wire_count()
    &&& (forall|w: int| 0 <= w < c.wire_count() ==> (#[trigger] ev[w]) == sel(lt[w], vt[w]))
    &&& (forall|w: int|
        0 <= w < c.wire_count() && pop[w] ==> (#[trigger] lt[w]).1 == xor_seq(lt[w].0, r)
            && lt[w].0.len() == 16 && lt[w].1.len() == 16)
    &&& (forall|w: int|
        0 <= w < c.wire_count() && !pop[w] ==> (#[trigger] lt[w]) == (zero_seq(16), zero_seq(16))
            && vt[w] == false)
}

/// The free-XOR step: XORing the held labels of two wires yields the label
/// selected by the XOR of their truth values.
proof fn lemma_hg_xor_gate(r: Seq<u8>, la: (Seq<u8>, Seq<u8>), lb: (Seq<u8>, Seq<u8>), va: bool, vb: bool)
    requires
        r.len() == 16,
        la.0.len() == 16,
        la.1 == xor_seq(la.0, r),
        lb.0.len() == 16,
        lb.1 == xor_seq(lb.0, r),
    ensures
        xor_seq(sel(la, va), sel(lb, vb)) == sel(
            (xor_seq(la.0, lb.0), xor_seq(xor_seq(la.0, lb.0), r)),
            va != vb,
        ),
{
    let w = xor_seq(la.0, lb.0);
    if va {
        if vb {
            lemma_xor_exchange(la.0, r, lb.0, r);
            lemma_xor_self(r);
            lemma_xor_zero(w);
        } else {
            lemma_xor_swap_right(la.0, r, lb.0);
        }
    } else {
        if vb {
            lemma_xor_assoc(la.0, lb.0, r);
        }
    }
}

/// The evaluation invariant holds before any gate runs.
#[verifier::rlimit(50)]
#[verifier::spinoff_prover]
proof fn lemma_hg_inv_base(gc: HalfGates, c: Circuit, r: Seq<u8>, w0: Seq<Seq<u8>>, input: Seq<bool>)
    requires
        gc.matches_circuit(c, r, w0),
        input.len() == c.input_length,
    ensures
        hg_inv_at(gc, c, r, w0, input, 0),
{
    let n = c.wire_count();
    let iv = hg_encode_views(c, r, w0, input);
    let key = gc.key@;
    lemma_hg_labels_len(c, key, r, w0, 0);
    lemma_hg_eval_len(gc, iv, 0);
    crate::circuit::lemma_wires_after_len(c, input, 0);
    crate::circuit::lemma_populated_after_len(c, 0);
    let ev = gc.eval_after(iv, 0);
    let lt = hg_labels_after(c, key, r, w0, 0);
    let vt = c.wires_after(input, 0);
    let pop = c.populated_after(0);
    assert(lt == hg_base_labels(c, r, w0));
    assert forall|w: int| 0 <= w < n implies (#[trigger] ev[w]) == sel(lt[w], vt[w]) by {
        if w < c.input_length {
            assert(ev[w] == iv[w]);
            assert(vt[w] == input[w]);
        } else {
            assert(ev[w] == zero_seq(16));
            assert(vt[w] == false);
        }
    }
    assert forall|w: int| 0 <= w < n && pop[w] implies (#[trigger] lt[w]).1 == xor_seq(lt[w].0, r)
        && lt[w].0.len() == 16 && lt[w].1.len() == 16 by {
        assert(w < c.input_length);
        assert(lt[w] == (w0[w], xor_seq(w0[w], r)));
    }
    assert forall|w: int| 0 <= w < n && !pop[w] implies (#[trigger] lt[w]) == (
        zero_seq(16),
        zero_seq(16),
    ) && vt[w] == false by {
        assert(w >= c.input_length);
    }
}

/// What one gate does to all four tables at once.
#[verifier::rlimit(100)]
#[verifier::spinoff_prover]
proof fn lemma_hg_step_tables(
    gc: HalfGates,
    c: Circuit,
    r: Seq<u8>,
    w0: Seq<Seq<u8>>,
    input: Seq<bool>,
    k: int,
)
    requires
        gc.matches_circuit(c, r, w0),
        input.len() == c.input_length,
        1 <= k <= c.gates@.len(),
        hg_inv_at(gc, c, r, w0, input, k - 1),
    ensures
        ({
            let iv = hg_encode_views(c, r, w0, input);
            let key = gc.key@;
            let evp = gc.eval_after(iv, k - 1);
            let ltp = hg_labels_after(c, key, r, w0, k - 1);
            let vtp = c.wires_after(input, k - 1);
            let popp = c.populated_after(k - 1);
            let o = c.gates@[k - 1].0 as int;
            let g = c.gates@[k - 1].1;
            let newpair = hg_new_pair(key, r, ltp, g);
            &&& c.gates@[k - 1].0 < c.wire_count()
            &&& gate_reads_populated(g, popp)
            &&& c.populated_after(k) == upd(popp, o, true)
            &&& c.wires_after(input, k) == upd(vtp, o, gate_value(g, vtp))
            &&& hg_labels_after(c, key, r, w0, k) == upd(ltp, o, newpair)
            &&& gc.eval_after(iv, k) == upd(evp, o, sel(newpair, gate_value(g, vtp)))
            &&& newpair.1 == xor_seq(newpair.0, r)
            &&& newpair.0.len() == 16
            &&& newpair.1.len() == 16
        }),
{
    let iv = hg_encode_views(c, r, w0, input);
    let key = gc.key@;
    lemma_hg_labels_len(c, key, r, w0, k - 1);
    lemma_hg_eval_len(gc, iv, k - 1);
    crate::circuit::lemma_wires_after_len(c, input, k - 1);
    crate::circuit::lemma_populated_after_len(c, k - 1);
    let evp = gc.eval_after(iv, k - 1);
    let ltp = hg_labels_after(c, key, r, w0, k - 1);
    let vtp = c.wires_after(input, k - 1);
    let popp = c.populated_after(k - 1);
    let o = c.gates@[k - 1].0 as int;
    let g = c.gates@[k - 1].1;
    assert(c.gates@[k - 1].0 < c.wire_count() && gate_reads_populated(g, popp));
    assert(gc.gates@[k - 1] == (c.gates@[k - 1].0, garbled_gate_of(g)));
    match g {
        Gate::Inv(a) => {
            let a = a as int;
            assert(evp[a] == sel(ltp[a], vtp[a]));
            lemma_xor_cancel(ltp[a].0, r);
            assert(gc.eval_after(iv, k) == upd(evp, o, evp[a]));
            assert(hg_labels_after(c, key, r, w0, k) == upd(ltp, o, (ltp[a].1, ltp[a].0)));
            assert(sel((ltp[a].1, ltp[a].0), !vtp[a]) == sel(ltp[a], vtp[a]));
        },
        Gate::Xor(a, b) => {
            let a = a as int;
            let b = b as int;
            lemma_hg_xor_gate(r, ltp[a], ltp[b], vtp[a], vtp[b]);
            assert(gc.eval_after(iv, k) == upd(evp, o, xor_seq(evp[a], evp[b])));
            let w = xor_seq(ltp[a].0, ltp[b].0);
            assert(hg_labels_after(c, key, r, w0, k) == upd(ltp, o, (w, xor_seq(w, r))));
        },
        Gate::And(a, b) => {
            let a = a as int;
            let b = b as int;
            lemma_gand_eq_and(gc.gates@, c.gates@, k - 1);
            lemma_hg_cipher_at(c, key, r, w0, k - 1, c.gates@.len() as int);
            let cidx = gand_count(gc.gates@, k - 1);
            assert(pair_views(gc.ciphers@)[cidx] == (
                hg_tg(key, r, ltp[a], ltp[b]),
                hg_te(key, ltp[a], ltp[b]),
            ));
            lemma_hg_and_gate(key, r, ltp[a], ltp[b], vtp[a], vtp[b]);
            let w = hg_and_w0(key, r, ltp[a], ltp[b]);
            assert(gc.eval_after(iv, k) == upd(
                evp,
                o,
                hg_eval_and(
                    key,
                    evp[a],
                    evp[b],
                    pair_views(gc.ciphers@)[cidx].0,
                    pair_views(gc.ciphers@)[cidx].1,
                ),
            ));
            assert(hg_labels_after(c, key, r, w0, k) == upd(ltp, o, (w, xor_seq(w, r))));
            assert(hg_eval_and(
                key,
                evp[a],
                evp[b],
                pair_views(gc.ciphers@)[cidx].0,
                pair_views(gc.ciphers@)[cidx].1,
            ) == sel((w, xor_seq(w, r)), vtp[a] && vtp[b]));
        },
    }
}

/// The output pair one gate writes, given the garbler's table before it.
pub open spec fn hg_new_pair(
    key: Seq<u8>,
    r: Seq<u8>,
    ltp: Seq<(Seq<u8>, Seq<u8>)>,
    g: Gate,
) -> (Seq<u8>, Seq<u8>) {
    match g {
        Gate::Inv(a) => (ltp[a as int].1, ltp[a as int].0),
        Gate::And(a, b) => {
            let w = hg_and_w0(key, r, ltp[a as int], ltp[b as int]);
            (w, xor_seq(w, r))
        },
        Gate::Xor(a, b) => {
            let w = xor_seq(ltp[a as int].0, ltp[b as int].0);
            (w, xor_seq(w, r))
        },
    }
}

/// One gate preserves the evaluation invariant.
#[verifier::rlimit(100)]
#[verifier::spinoff_prover]
proof fn lemma_hg_inv_step(
    gc: HalfGates,
    c: Circuit,
    r: Seq<u8>,
    w0: Seq<Seq<u8>>,
    input: Seq<bool>,
    k: int,
)
    requires
        gc.matches_circuit(c, r, w0),
        input.len() == c.input_length,
        1 <= k <= c.gates@.len(),
        hg_inv_at(gc, c, r, w0, input, k - 1),
    ensures
        hg_inv_at(gc, c, r, w0, input, k),
{
    let n = c.wire_count();
    let iv = hg_encode_views(c, r, w0, input);
    let key = gc.key@;
    lemma_hg_labels_len(c, key, r, w0, k);
    lemma_hg_eval_len(gc, iv, k);
    crate::circuit::lemma_wires_after_len(c, input, k);
    crate::circuit::lemma_populated_after_len(c, k);
    lemma_hg_step_tables(gc, c, r, w0, input, k);
    let evp = gc.eval_after(iv, k - 1);
    let ltp = hg_labels_after(c, key, r, w0, k - 1);
    let vtp = c.wires_after(input, k - 1);
    let popp = c.populated_after(k - 1);
    let ev = gc.eval_after(iv, k);
    let lt = hg_labels_after(c, key, r, w0, k);
    let vt = c.wires_after(input, k);
    let pop = c.populated_after(k);
    let o = c.gates@[k - 1].0 as int;
    let g = c.gates@[k - 1].1;
    let newpair = hg_new_pair(key, r, ltp, g);
    assert forall|w: int| 0 <= w < n implies (#[trigger] ev[w]) == sel(lt[w], vt[w]) by {
        if w != o {
            assert(ev[w] == evp[w] && lt[w] == ltp[w] && vt[w] == vtp[w]);
        } else {
            assert(ev[w] == sel(newpair, gate_value(g, vtp)));
            assert(lt[w] == newpair && vt[w] == gate_value(g, vtp));
        }
    }
    assert forall|w: int| 0 <= w < n && pop[w] implies (#[trigger] lt[w]).1 == xor_seq(lt[w].0, r)
        && lt[w].0.len() == 16 && lt[w].1.len() == 16 by {
        if w != o {
            assert(lt[w] == ltp[w] && pop[w] == popp[w]);
        } else {
            assert(lt[w] == newpair);
        }
    }
    assert forall|w: int| 0 <= w < n && !pop[w] implies (#[trigger] lt[w]) == (
        zero_seq(16),
        zero_seq(16),
    ) && vt[w] == false by {
        assert(w != o);
        assert(lt[w] == ltp[w] && vt[w] == vtp[w] && pop[w] == popp[w]);
    }
}

/// The evaluation invariant holds after every prefix of the gates.
pub proof fn lemma_hg_inv(
    gc: HalfGates,
    c: Circuit,
    r: Seq<u8>,
    w0: Seq<Seq<u8>>,
    input: Seq<bool>,
    k: int,
)
    requires
        gc.matches_circuit(c, r, w0),
        input.len() == c.input_length,
        0 <= k <= c.gates@.len(),
    ensures
        hg_inv_at(gc, c, r, w0, input, k),
    decreases k,
{
    if k == 0 {
        lemma_hg_inv_base(gc, c, r, w0, input);
    } else {
        lemma_hg_inv(gc, c, r, w0, input, k - 1);
        lemma_hg_inv_step(gc, c, r, w0, input, k);
    }
}

/// Correctness of the Half-Gates scheme: a garbling of a circuit, fed the
/// encoding of any input of the right length, evaluates without failure,
/// and decoding its output labels yields exactly the circuit's plaintext
/// output. Together with the contracts of `encode`, `evaluate` and `decode`,
/// this pins `garble_compute` to the plaintext evaluator.
#[verifier::rlimit(100)]
#[verifier::spinoff_prover]
pub proof fn lemma_hg_garble_correct(
    gc: HalfGates,
    enc: HalfGatesEncoder,
    dec: HalfGatesDecoder,
    c: Circuit,
    r: Seq<u8>,
    w0: Seq<Seq<u8>>,
    input: Seq<bool>,
)
    requires
        gc.garbling_with(enc, dec, c, r, w0),
        input.len() == c.input_length,
    ensures
        enc.num_inputs() == input.len(),
        encoded_views(&enc, input) == hg_encode_views(c, r, w0, input),
        gc.eval_ok(hg_encode_views(c, r, w0, input)),
        dec.decode_ok(gc.eval_spec(hg_encode_views(c, r, w0, input))),
        dec.decode_spec(gc.eval_spec(hg_encode_views(c, r, w0, input))) == c.output_of(input),
{
    let n = c.wire_count();
    let iv = hg_encode_views(c, r, w0, input);
    let key = gc.key@;
    let total = c.gates@.len() as int;
    assert(encoded_views(&enc, input) =~= iv) by {
        assert forall|i: int| 0 <= i < input.len() implies enc.label_spec(i, input[i]) == sel(
            hg_base_labels(c, r, w0)[i],
            input[i],
        ) by {
            assert(pair_views(enc.inner@)[i] == (w0[i], xor_seq(w0[i], r)));
            assert(pair_views(enc.inner@)[i] == (enc.inner@[i].0@, enc.inner@[i].1@));
        }
    }
    lemma_hg_inv(gc, c, r, w0, input, total);
    lemma_gand_eq_and(gc.gates@, c.gates@, total);
    lemma_hg_ciphers_count(c, key, r, w0, total);
    assert(gc.ciphers@.len() == pair_views(gc.ciphers@).len());
    assert forall|i: int| 0 <= i < iv.len() implies (#[trigger] iv[i]).len() == 16 by {
        assert(hg_base_labels(c, r, w0)[i] == (w0[i], xor_seq(w0[i], r)));
    }
    assert(gc.eval_ok(iv));
    let ev = gc.eval_after(iv, total);
    let lt = hg_labels_after(c, key, r, w0, total);
    let vt = c.wires_after(input, total);
    let start = n - c.output_length;
    let outs = gc.eval_spec(iv);
    assert(outs == ev.skip(start));
    assert(outs.len() == c.output_length);
    assert forall|j: int| 0 <= j < c.output_length implies (#[trigger] outs[j]).len() == 16
        && (lsb(outs[j]) != dec.inner@[j]) == vt[start + j] by {
        let w = start + j;
        assert(outs[j] == ev[w]);
        assert(ev[w] == sel(lt[w], vt[w]));
        assert(dec.inner@[j] == lsb(lt[w].0));
        if vt[w] {
            assert(c.populated_after(total)[w]);
            assert(lt[w].1 == xor_seq(lt[w].0, r) && lt[w].0.len() == 16);
            lemma_lsb_xor(lt[w].0, r);
        } else {
            if !c.populated_after(total)[w] {
                assert(lt[w] == (zero_seq(16), zero_seq(16)));
            }
        }
    }
    assert(dec.decode_ok(outs));
    assert(dec.decode_spec(outs) =~= c.output_of(input)) by {
        assert forall|j: int| 0 <= j < c.output_length implies dec.decode_spec(outs)[j]
            == c.output_of(input)[j] by {
            assert(dec.decode_spec(outs)[j] == (lsb(outs[j]) != dec.inner@[j]));
            assert(c.output_of(input)[j] == vt[start + j]);
        }
        assert(dec.decode_spec(outs).len() == c.output_of(input).len());
    }
}

} // verus!
