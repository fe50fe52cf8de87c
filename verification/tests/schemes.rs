use garbled_circuits::circuit::Circuit;
use garbled_circuits::classic::Classic;
use garbled_circuits::errors::EvalError;
use garbled_circuits::garble::{GarbledCircuit, GarbledDecoder, GarbledEncoder};
use garbled_circuits::half_gates::{GarbledGate, HalfGates};
use garbled_circuits::parse::parse_circuit;
use garbled_circuits::util::{bits_to_u64, u64_to_bits};

fn parse(text: &str) -> Circuit {
    parse_circuit(text.as_bytes()).unwrap()
}

/// A 64-bit equal-to-zero circuit: 64 INV gates and an AND fold.
fn build_zero_equal() -> String {
    let mut lines = Vec::new();
    let mut next = 64;
    let mut acc = 0;
    for i in 0..64 {
        let ni = next;
        next += 1;
        lines.push(format!("1 1 {} {} INV", i, ni));
        if i == 0 {
            acc = ni;
        } else {
            let o = next;
            next += 1;
            lines.push(format!("2 1 {} {} {} AND", acc, ni, o));
            acc = o;
        }
    }
    let z = next;
    next += 1;
    lines.push(format!("2 1 0 0 {} XOR", z));
    let last = next;
    next += 1;
    lines.push(format!("2 1 {} {} {} XOR", acc, z, last));
    format!("{} {}\n1 64\n1 1\n\n{}\n", lines.len(), next, lines.join("\n"))
}

/// A 64-bit ripple-carry adder.
fn build_adder64() -> String {
    let mut lines = Vec::new();
    let mut next = 128;
    let mut gate = |lines: &mut Vec<String>, next: &mut usize, op: &str, a: usize, b: usize| {
        let o = *next;
        *next += 1;
        lines.push(format!("2 1 {} {} {} {}", a, b, o, op));
        o
    };
    let mut sums = Vec::new();
    let mut carry: Option<usize> = None;
    for i in 0..64 {
        let a = i;
        let b = 64 + i;
        match carry {
            None => {
                sums.push(gate(&mut lines, &mut next, "XOR", a, b));
                carry = Some(gate(&mut lines, &mut next, "AND", a, b));
            }
            Some(cin) => {
                let t = gate(&mut lines, &mut next, "XOR", a, b);
                sums.push(gate(&mut lines, &mut next, "XOR", t, cin));
                if i < 63 {
                    let g = gate(&mut lines, &mut next, "AND", a, b);
                    let p = gate(&mut lines, &mut next, "AND", t, cin);
                    carry = Some(gate(&mut lines, &mut next, "XOR", g, p));
                }
            }
        }
    }
    let z = gate(&mut lines, &mut next, "XOR", 0, 0);
    for &s in &sums {
        gate(&mut lines, &mut next, "XOR", s, z);
    }
    format!("{} {}\n1 128\n1 64\n\n{}\n", lines.len(), next, lines.join("\n"))
}

/// A 64-bit ripple-borrow subtractor.
fn build_subtract64_text() -> String {
    let mut lines = Vec::new();
    let mut next = 128;
    let mut gate2 = |lines: &mut Vec<String>, next: &mut usize, op: &str, a: usize, b: usize| {
        let o = *next;
        *next += 1;
        lines.push(format!("2 1 {} {} {} {}", a, b, o, op));
        o
    };
    let mut inv = |lines: &mut Vec<String>, next: &mut usize, a: usize| {
        let o = *next;
        *next += 1;
        lines.push(format!("1 1 {} {} INV", a, o));
        o
    };
    let mut diffs = Vec::new();
    let mut borrow: Option<usize> = None;
    for i in 0..64 {
        let a = i;
        let b = 64 + i;
        match borrow {
            None => {
                diffs.push(gate2(&mut lines, &mut next, "XOR", a, b));
                let na = inv(&mut lines, &mut next, a);
                borrow = Some(gate2(&mut lines, &mut next, "AND", na, b));
            }
            Some(bin) => {
                let x = gate2(&mut lines, &mut next, "XOR", a, b);
                diffs.push(gate2(&mut lines, &mut next, "XOR", x, bin));
                if i < 63 {
                    let na = inv(&mut lines, &mut next, a);
                    let t1 = gate2(&mut lines, &mut next, "AND", na, b);
                    let nx = inv(&mut lines, &mut next, x);
                    let t2 = gate2(&mut lines, &mut next, "AND", bin, nx);
                    borrow = Some(gate2(&mut lines, &mut next, "XOR", t1, t2));
                }
            }
        }
    }
    let z = gate2(&mut lines, &mut next, "XOR", 0, 0);
    for &d in &diffs {
        gate2(&mut lines, &mut next, "XOR", d, z);
    }
    format!("{} {}\n1 128\n1 64\n\n{}\n", lines.len(), next, lines.join("\n"))
}

fn hg_compute_u64(circuit: &Circuit, inputs: &[u64]) -> Vec<bool> {
    let (gc, enc, dec) = HalfGates::garble_circuit(circuit);
    let input = inputs
        .iter()
        .cloned()
        .map(u64_to_bits)
        .flatten()
        .collect::<Vec<_>>();
    gc.garble_compute(&enc, &dec, &input).unwrap()
}

fn classic_compute_u64(circuit: &Circuit, inputs: &[u64]) -> Vec<bool> {
    let (gc, enc, dec) = Classic::garble_circuit(circuit);
    let input = inputs
        .iter()
        .cloned()
        .map(u64_to_bits)
        .flatten()
        .collect::<Vec<_>>();
    gc.garble_compute(&enc, &dec, &input).unwrap()
}

#[test]
fn test_half_gates_zero_equal() {
    let circuit = parse(&build_zero_equal());
    assert!(circuit.verify_topology());
    assert_eq!(hg_compute_u64(&circuit, &[0]), [true]);
    assert_eq!(hg_compute_u64(&circuit, &[1000]), [false]);
    assert_eq!(hg_compute_u64(&circuit, &[5489744564]), [false]);
    assert_eq!(hg_compute_u64(&circuit, &[1]), [false]);
}

#[test]
fn test_classic_zero_equal() {
    let circuit = parse(&build_zero_equal());
    assert!(circuit.verify_topology());
    assert_eq!(classic_compute_u64(&circuit, &[0]), [true]);
    assert_eq!(classic_compute_u64(&circuit, &[1000]), [false]);
    assert_eq!(classic_compute_u64(&circuit, &[5489744564]), [false]);
    assert_eq!(classic_compute_u64(&circuit, &[1]), [false]);
}

#[test]
fn test_half_gates_adder_64() {
    let circuit = parse(&build_adder64());
    assert!(circuit.verify_topology());
    assert_eq!(bits_to_u64(&hg_compute_u64(&circuit, &[10, 5])), 15);
    assert_eq!(bits_to_u64(&hg_compute_u64(&circuit, &[0, 5000])), 5000);
    assert_eq!(bits_to_u64(&hg_compute_u64(&circuit, &[300, 0])), 300);
    assert_eq!(
        bits_to_u64(&hg_compute_u64(&circuit, &[14894156165, 155644])),
        14894156165 + 155644
    );
}

#[test]
fn test_classic_adder_64() {
    let circuit = parse(&build_adder64());
    assert!(circuit.verify_topology());
    assert_eq!(bits_to_u64(&classic_compute_u64(&circuit, &[10, 5])), 15);
    assert_eq!(bits_to_u64(&classic_compute_u64(&circuit, &[0, 5000])), 5000);
    assert_eq!(bits_to_u64(&classic_compute_u64(&circuit, &[300, 0])), 300);
}

#[test]
fn test_garbling_randomized() {
    // Two independent garblings produce distinct artifacts.
    let circuit = parse(&build_zero_equal());
    let (gc1, enc1, _dec1) = HalfGates::garble_circuit(&circuit);
    let (gc2, enc2, _dec2) = HalfGates::garble_circuit(&circuit);
    assert!(gc1.key != gc2.key || enc1.inner != enc2.inner);

    let (_cg1, cenc1, _cdec1) = Classic::garble_circuit(&circuit);
    let (_cg2, cenc2, _cdec2) = Classic::garble_circuit(&circuit);
    assert!(cenc1.inner != cenc2.inner);
}

#[test]
fn test_encode_deterministic() {
    // For a fixed encoder, encoding is a pure function of the input bits.
    let circuit = parse(&build_zero_equal());
    let x = u64_to_bits(123456789);

    let (_gc, enc, _dec) = HalfGates::garble_circuit(&circuit);
    assert_eq!(enc.encode(&x).unwrap(), enc.encode(&x).unwrap());

    let (_cgc, cenc, _cdec) = Classic::garble_circuit(&circuit);
    assert_eq!(cenc.encode(&x).unwrap(), cenc.encode(&x).unwrap());
}

#[test]
fn test_decode_inverts_encode() {
    // A gate-free circuit passes input labels straight to the decoder, so
    // decode(evaluate(encode(x))) must be x itself.
    let circuit = parse("0 2\n1 2\n1 2\n\n");
    for (a, b) in [(false, false), (false, true), (true, false), (true, true)] {
        let (gc, enc, dec) = HalfGates::garble_circuit(&circuit);
        assert_eq!(gc.garble_compute(&enc, &dec, &vec![a, b]).unwrap(), [a, b]);
        let (cgc, cenc, cdec) = Classic::garble_circuit(&circuit);
        assert_eq!(cgc.garble_compute(&cenc, &cdec, &vec![a, b]).unwrap(), [a, b]);
    }
}

#[test]
fn test_single_gate_garbled() {
    let and_c = parse("1 3\n1 2\n1 1\n\n2 1 0 1 2 AND\n");
    let xor_c = parse("1 3\n1 2\n1 1\n\n2 1 0 1 2 XOR\n");
    for (a, b) in [(false, false), (false, true), (true, false), (true, true)] {
        let (gc, enc, dec) = HalfGates::garble_circuit(&and_c);
        assert_eq!(gc.garble_compute(&enc, &dec, &vec![a, b]).unwrap(), [a && b]);
        let (gc, enc, dec) = HalfGates::garble_circuit(&xor_c);
        assert_eq!(gc.garble_compute(&enc, &dec, &vec![a, b]).unwrap(), [a != b]);
        let (gc, enc, dec) = Classic::garble_circuit(&and_c);
        assert_eq!(gc.garble_compute(&enc, &dec, &vec![a, b]).unwrap(), [a && b]);
        let (gc, enc, dec) = Classic::garble_circuit(&xor_c);
        assert_eq!(gc.garble_compute(&enc, &dec, &vec![a, b]).unwrap(), [a != b]);
    }
}

#[test]
fn test_half_gates_cipher_count() {
    // Exactly one cipher pair per AND gate, in both circuits.
    let circuit = parse(&build_adder64());
    let and_gates = build_adder64().matches(" AND").count();
    let (gc, _enc, _dec) = HalfGates::garble_circuit(&circuit);
    assert_eq!(gc.ciphers.len(), and_gates);

    let zero = parse(&build_zero_equal());
    let zero_ands = build_zero_equal().matches(" AND").count();
    let (gz, _e, _d) = HalfGates::garble_circuit(&zero);
    assert_eq!(gz.ciphers.len(), zero_ands);
}

#[test]
fn test_inv_on_input_wire() {
    // INV on an input wire is handled by the label swap and consumes no
    // cipher.
    let circuit = parse("1 2\n1 1\n1 1\n\n1 1 0 1 INV\n");
    let (gc, enc, dec) = HalfGates::garble_circuit(&circuit);
    assert_eq!(gc.ciphers.len(), 0);
    assert_eq!(gc.garble_compute(&enc, &dec, &vec![false]).unwrap(), [true]);
    assert_eq!(gc.garble_compute(&enc, &dec, &vec![true]).unwrap(), [false]);
}

#[test]
fn test_xor_only_circuit_has_no_ciphers() {
    // A pure-XOR circuit garbles to an empty cipher list.
    let text = "3 5\n1 2\n1 1\n\n2 1 0 1 2 XOR\n2 1 2 0 3 XOR\n2 1 3 1 4 XOR\n";
    let circuit = parse(text);
    assert!(circuit.verify_topology());
    let (gc, enc, dec) = HalfGates::garble_circuit(&circuit);
    assert_eq!(gc.ciphers.len(), 0);
    for (a, b) in [(false, false), (false, true), (true, false), (true, true)] {
        let expect = ((a != b) != a) != b;
        assert_eq!(gc.garble_compute(&enc, &dec, &vec![a, b]).unwrap(), [expect]);
    }
}

#[test]
fn test_length_mismatch_errors() {
    let circuit = parse("1 3\n1 2\n1 1\n\n2 1 0 1 2 AND\n");
    let (gc, enc, dec) = HalfGates::garble_circuit(&circuit);
    assert_eq!(enc.encode(&vec![true]).unwrap_err(), EvalError::LengthMismatch);
    assert_eq!(
        gc.garble_compute(&enc, &dec, &vec![true, false, true]).unwrap_err(),
        EvalError::LengthMismatch
    );
    assert_eq!(dec.decode(&vec![]).unwrap_err(), EvalError::LengthMismatch);

    let (cgc, cenc, cdec) = Classic::garble_circuit(&circuit);
    assert_eq!(cenc.encode(&vec![true]).unwrap_err(), EvalError::LengthMismatch);
    assert_eq!(
        cgc.garble_compute(&cenc, &cdec, &vec![true, false, true]).unwrap_err(),
        EvalError::LengthMismatch
    );
}

#[test]
fn test_half_gates_subtract_64() {
    let circuit = parse(&build_subtract64_text());
    assert!(circuit.verify_topology());
    assert_eq!(bits_to_u64(&hg_compute_u64(&circuit, &[5000, 300])), 4700);
    assert_eq!(bits_to_u64(&hg_compute_u64(&circuit, &[10, 5])), 5);
}

#[test]
fn test_cipher_exhausted() {
    // An artifact whose cipher list is shorter than its AND count reports
    // the exhaustion instead of misevaluating.
    let gc = HalfGates {
        input_length: 1,
        output_length: 1,
        gates: vec![(1, GarbledGate::And(0, 0))],
        ciphers: vec![],
        key: vec![0u8; 16],
    };
    let r = gc.evaluate(vec![vec![0u8; 16]]);
    assert_eq!(r.unwrap_err(), EvalError::CipherExhausted);
}

#[test]
fn test_classic_decode_rejects_foreign_labels() {
    let circuit = parse("1 3\n1 2\n1 1\n\n2 1 0 1 2 AND\n");
    let (_gc, _enc, dec) = Classic::garble_circuit(&circuit);
    let garbage = vec![vec![0u8; 16]];
    assert_eq!(dec.decode(&garbage).unwrap_err(), EvalError::DecryptionFailure);
}
