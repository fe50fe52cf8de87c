use garbled_circuits::circuit::Circuit;
use garbled_circuits::errors::ParseError;
use garbled_circuits::parse::parse_circuit;
use garbled_circuits::util::{bits_to_u64, u64_to_bits};

/// Emits Bristol-style circuit text: every gate writes the next fresh wire,
/// and `finish` appends a copy layer so the outputs land on the last wires.
struct CircuitText {
    n_in: usize,
    next: usize,
    lines: Vec<String>,
}

impl CircuitText {
    fn new(n_in: usize) -> Self {
        CircuitText { n_in, next: n_in, lines: Vec::new() }
    }

    fn xor(&mut self, a: usize, b: usize) -> usize {
        let o = self.next;
        self.next += 1;
        self.lines.push(format!("2 1 {} {} {} XOR", a, b, o));
        o
    }

    fn and(&mut self, a: usize, b: usize) -> usize {
        let o = self.next;
        self.next += 1;
        self.lines.push(format!("2 1 {} {} {} AND", a, b, o));
        o
    }

    fn inv(&mut self, a: usize) -> usize {
        let o = self.next;
        self.next += 1;
        self.lines.push(format!("1 1 {} {} INV", a, o));
        o
    }

    fn finish(mut self, outs: &[usize]) -> String {
        let z = self.xor(0, 0);
        let mut last = Vec::new();
        for &o in outs {
            last.push(self.xor(o, z));
        }
        let gate_count = self.lines.len();
        let wire_count = self.n_in + gate_count;
        format!(
            "{} {}\n1 {}\n1 {}\n\n{}\n",
            gate_count,
            wire_count,
            self.n_in,
            outs.len(),
            self.lines.join("\n")
        )
    }
}

pub fn build_zero_equal() -> String {
    let mut c = CircuitText::new(64);
    let mut acc = 0;
    for i in 0..64 {
        let ni = c.inv(i);
        if i == 0 {
            acc = ni;
        } else {
            acc = c.and(acc, ni);
        }
    }
    c.finish(&[acc])
}

pub fn build_adder64() -> String {
    let mut c = CircuitText::new(128);
    let mut sums = Vec::new();
    let mut carry: Option<usize> = None;
    for i in 0..64 {
        let a = i;
        let b = 64 + i;
        match carry {
            None => {
                sums.push(c.xor(a, b));
                carry = Some(c.and(a, b));
            }
            Some(cin) => {
                let t = c.xor(a, b);
                sums.push(c.xor(t, cin));
                if i < 63 {
                    let g = c.and(a, b);
                    let p = c.and(t, cin);
                    carry = Some(c.xor(g, p));
                }
            }
        }
    }
    c.finish(&sums)
}

pub fn build_subtract64() -> String {
    let mut c = CircuitText::new(128);
    let mut diffs = Vec::new();
    let mut borrow: Option<usize> = None;
    for i in 0..64 {
        let a = i;
        let b = 64 + i;
        match borrow {
            None => {
                diffs.push(c.xor(a, b));
                let na = c.inv(a);
                borrow = Some(c.and(na, b));
            }
            Some(bin) => {
                let x = c.xor(a, b);
                diffs.push(c.xor(x, bin));
                if i < 63 {
                    let na = c.inv(a);
                    let t1 = c.and(na, b);
                    let nx = c.inv(x);
                    let t2 = c.and(bin, nx);
                    borrow = Some(c.xor(t1, t2));
                }
            }
        }
    }
    c.finish(&diffs)
}

pub fn build_mult64() -> String {
    let mut c = CircuitText::new(128);
    let mut acc = Vec::new();
    for i in 0..64 {
        let pp = c.and(i, 64);
        acc.push(pp);
    }
    for j in 1..64 {
        let mut carry: Option<usize> = None;
        for k in 0..(64 - j) {
            let pos = j + k;
            let pp = c.and(k, 64 + j);
            match carry {
                None => {
                    let t = c.xor(acc[pos], pp);
                    if pos < 63 {
                        carry = Some(c.and(acc[pos], pp));
                    }
                    acc[pos] = t;
                }
                Some(cin) => {
                    let t = c.xor(acc[pos], pp);
                    let s = c.xor(t, cin);
                    if pos < 63 {
                        let g = c.and(acc[pos], pp);
                        let p = c.and(t, cin);
                        carry = Some(c.xor(g, p));
                    }
                    acc[pos] = s;
                }
            }
        }
    }
    c.finish(&acc)
}

pub fn build_udivide64() -> String {
    let mut c = CircuitText::new(128);
    let z = c.xor(0, 0);
    let mut rem = vec![z; 64];
    let mut q = vec![z; 64];
    for k in (0..64).rev() {
        let mut nr = vec![k];
        nr.extend_from_slice(&rem[..63]);
        rem = nr;
        let mut borrow: Option<usize> = None;
        let mut diff = Vec::new();
        for i in 0..64 {
            let a = rem[i];
            let b = 64 + i;
            match borrow {
                None => {
                    diff.push(c.xor(a, b));
                    let na = c.inv(a);
                    borrow = Some(c.and(na, b));
                }
                Some(bin) => {
                    let x = c.xor(a, b);
                    diff.push(c.xor(x, bin));
                    let na = c.inv(a);
                    let t1 = c.and(na, b);
                    let nx = c.inv(x);
                    let t2 = c.and(bin, nx);
                    borrow = Some(c.xor(t1, t2));
                }
            }
        }
        let bout = borrow.unwrap();
        let qk = c.inv(bout);
        q[k] = qk;
        for i in 0..64 {
            let dxr = c.xor(diff[i], rem[i]);
            let pick = c.and(qk, dxr);
            rem[i] = c.xor(rem[i], pick);
        }
    }
    c.finish(&q)
}

fn parse(text: &str) -> Circuit {
    parse_circuit(text.as_bytes()).unwrap()
}

fn evaluate_u64(circuit: &Circuit, inputs: &[u64]) -> Vec<bool> {
    let input = inputs
        .iter()
        .cloned()
        .map(u64_to_bits)
        .flatten()
        .collect::<Vec<_>>();
    circuit.evaluate(input)
}

fn binop_u64(circuit: &Circuit, left: u64, right: u64) -> u64 {
    bits_to_u64(&evaluate_u64(circuit, &[left, right]))
}

#[test]
fn test_zero_equal() {
    let circuit: Circuit = parse(&build_zero_equal());
    assert!(circuit.verify_topology());

    assert_eq!(evaluate_u64(&circuit, &[0]), [true]);
    assert_eq!(evaluate_u64(&circuit, &[1000]), [false]);
    assert_eq!(evaluate_u64(&circuit, &[5489744564]), [false]);
    assert_eq!(evaluate_u64(&circuit, &[1]), [false]);
}

#[test]
fn test_adder_64() {
    let circuit: Circuit = parse(&build_adder64());
    assert!(circuit.verify_topology());

    assert_eq!(binop_u64(&circuit, 0, 0), 0);
    assert_eq!(binop_u64(&circuit, 1, 1), 2);
    assert_eq!(binop_u64(&circuit, 10, 5), 15);
    assert_eq!(binop_u64(&circuit, 0, 5000), 5000);
    assert_eq!(binop_u64(&circuit, 300, 0), 300);
}

#[test]
fn test_subtract_64() {
    let circuit: Circuit = parse(&build_subtract64());
    assert!(circuit.verify_topology());

    assert_eq!(binop_u64(&circuit, 0, 0), 0);
    assert_eq!(binop_u64(&circuit, 1, 1), 0);
    assert_eq!(binop_u64(&circuit, 10, 5), 5);
    assert_eq!(binop_u64(&circuit, 5000, 300), 4700);
    assert_eq!(binop_u64(&circuit, 14894156165, 155644), 14894156165 - 155644);
}

#[test]
fn test_mult_64() {
    let circuit: Circuit = parse(&build_mult64());
    assert!(circuit.verify_topology());

    assert_eq!(binop_u64(&circuit, 0, 0), 0);
    assert_eq!(binop_u64(&circuit, 1, 1), 1);
    assert_eq!(binop_u64(&circuit, 10, 5), 50);
    assert_eq!(binop_u64(&circuit, 5000, 300), 5000 * 300);
    assert_eq!(binop_u64(&circuit, 14894155, 155644), 14894155 * 155644);
}

#[test]
fn test_divide_64() {
    let circuit: Circuit = parse(&build_udivide64());
    assert!(circuit.verify_topology());

    assert_eq!(binop_u64(&circuit, 0, 1), 0);
    assert_eq!(binop_u64(&circuit, 1, 1), 1);
    assert_eq!(binop_u64(&circuit, 15, 5), 3);
    assert_eq!(binop_u64(&circuit, 5000, 200), 25);
    assert_eq!(binop_u64(&circuit, 258290865, 165465), 1561);
}

#[test]
fn test_parse_shape() {
    // After parsing, input length plus gate count equals the wire count.
    let circuit = parse(&build_adder64());
    let text = build_adder64();
    let header: Vec<usize> = text
        .split_whitespace()
        .take(2)
        .map(|t| t.parse().unwrap())
        .collect();
    assert_eq!(circuit.input_length + circuit.gates.len(), header[1]);
    assert_eq!(circuit.gates.len(), header[0]);
    assert_eq!(circuit.input_length, 128);
    assert_eq!(circuit.output_length, 64);
}

#[test]
fn test_parse_rejects_shape_mismatch() {
    // Header claims one wire too many.
    let text = "1 4\n1 2\n1 1\n\n2 1 0 1 2 AND\n";
    assert_eq!(parse_circuit(text.as_bytes()).unwrap_err(), ParseError::ShapeMismatch);
    // Output block larger than the wire space.
    let text = "1 3\n1 2\n1 9\n\n2 1 0 1 2 AND\n";
    assert_eq!(parse_circuit(text.as_bytes()).unwrap_err(), ParseError::ShapeMismatch);
}

#[test]
fn test_parse_rejects_bad_gate() {
    let bad_op = "1 3\n1 2\n1 1\n\n2 1 0 1 2 NAND\n";
    assert_eq!(parse_circuit(bad_op.as_bytes()).unwrap_err(), ParseError::BadGate);
    let bad_arity = "1 3\n1 2\n1 1\n\n1 1 0 2 AND\n";
    assert_eq!(parse_circuit(bad_arity.as_bytes()).unwrap_err(), ParseError::BadGate);
    let two_outputs = "1 3\n1 2\n1 1\n\n2 2 0 1 2 AND\n";
    assert_eq!(parse_circuit(two_outputs.as_bytes()).unwrap_err(), ParseError::BadGate);
    let missing = "1 3\n1 2\n1 1\n\n2 1 0 1\n";
    assert_eq!(parse_circuit(missing.as_bytes()).unwrap_err(), ParseError::BadGate);
}

#[test]
fn test_parse_rejects_bad_header() {
    assert_eq!(parse_circuit(b"").unwrap_err(), ParseError::BadHeader);
    assert_eq!(parse_circuit(b"x 3\n1 2\n1 1\n\n").unwrap_err(), ParseError::BadHeader);
    assert_eq!(parse_circuit(b"1").unwrap_err(), ParseError::BadHeader);
}

#[test]
fn test_parse_requires_blank_separator() {
    // A blank line must split the header from the gates.
    let with_blank = "1 3\n1 2\n1 1\n\n2 1 0 1 2 XOR\n";
    assert!(parse_circuit(with_blank.as_bytes()).is_ok());
    let flattened = with_blank.replace('\n', " ");
    assert_eq!(parse_circuit(flattened.as_bytes()).unwrap_err(), ParseError::BadHeader);
    let single_newline = "1 3\n1 2\n1 1\n2 1 0 1 2 XOR\n";
    assert_eq!(parse_circuit(single_newline.as_bytes()).unwrap_err(), ParseError::BadHeader);
}

#[test]
fn test_parse_rejects_trailing_text() {
    // Nothing but whitespace may follow the last gate.
    let trailing = "1 3\n1 2\n1 1\n\n2 1 0 1 2 XOR\nleftover\n";
    assert_eq!(parse_circuit(trailing.as_bytes()).unwrap_err(), ParseError::BadGate);
    let extra_gate = "1 3\n1 2\n1 1\n\n2 1 0 1 2 XOR\n2 1 0 1 2 XOR\n";
    assert_eq!(parse_circuit(extra_gate.as_bytes()).unwrap_err(), ParseError::BadGate);
}

#[test]
fn test_parse_rejects_wire_out_of_range() {
    let text = "1 3\n1 2\n1 1\n\n2 1 0 9 2 AND\n";
    assert_eq!(parse_circuit(text.as_bytes()).unwrap_err(), ParseError::WireOutOfRange);
}

#[test]
fn test_parse_ignores_extra_whitespace() {
    let text = "1 3\r\n1   2\n1 1\n\n\n  2 1 0 1 2\tAND \n\n";
    let c = parse_circuit(text.as_bytes()).unwrap();
    assert_eq!(c.input_length, 2);
    assert_eq!(c.output_length, 1);
    assert_eq!(c.gates.len(), 1);
}

#[test]
fn test_single_gate_circuits() {
    // A lone AND, XOR and INV evaluate correctly.
    let and_c = parse("1 3\n1 2\n1 1\n\n2 1 0 1 2 AND\n");
    assert!(and_c.verify_topology());
    for (a, b) in [(false, false), (false, true), (true, false), (true, true)] {
        assert_eq!(and_c.evaluate(vec![a, b]), [a && b]);
    }
    let xor_c = parse("1 3\n1 2\n1 1\n\n2 1 0 1 2 XOR\n");
    for (a, b) in [(false, false), (false, true), (true, false), (true, true)] {
        assert_eq!(xor_c.evaluate(vec![a, b]), [a != b]);
    }
    let inv_c = parse("1 2\n1 1\n1 1\n\n1 1 0 1 INV\n");
    assert_eq!(inv_c.evaluate(vec![false]), [true]);
    assert_eq!(inv_c.evaluate(vec![true]), [false]);
}

#[test]
fn test_gate_free_circuit() {
    // No gates: the outputs are the tail of the input block.
    let c = parse("0 2\n1 2\n1 2\n\n");
    assert!(c.verify_topology());
    assert_eq!(c.evaluate(vec![true, false]), [true, false]);
    assert_eq!(c.evaluate(vec![false, true]), [false, true]);
}
