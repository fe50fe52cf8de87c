use vstd::prelude::*;

use crate::circuit::{gate_reads_in_range, Circuit, Gate};
use crate::errors::ParseError;

verus! {

/// Whitespace: space, tab, newline, carriage return.
pub open spec fn is_ws(b: u8) -> bool {
    b == 32 || b == 9 || b == 10 || b == 13
}

/// An ASCII decimal digit.
pub open spec fn is_digit(b: u8) -> bool {
    48 <= b <= 57
}

/// The first non-whitespace position at or after `i`.
pub open spec fn skip_ws(s: Seq<u8>, i: int) -> int
    decreases s.len() - i,
{
    if i < 0 {
        0
    } else if i >= s.len() {
        s.len() as int
    } else if is_ws(s[i]) {
        skip_ws(s, i + 1)
    } else {
        i
    }
}

/// The end of the token starting at `i`: the next whitespace or the end.
pub open spec fn token_end(s: Seq<u8>, i: int) -> int
    decreases s.len() - i,
{
    if i < 0 {
        0
    } else if i >= s.len() {
        s.len() as int
    } else if is_ws(s[i]) {
        i
    } else {
        token_end(s, i + 1)
    }
}

/// Whether positions `[i, j)` hold only decimal digits.
pub open spec fn all_digits(s: Seq<u8>, i: int, j: int) -> bool {
    forall|q: int| i <= q < j ==> is_digit(#[trigger] s[q])
}

/// The decimal value of the digits at positions `[i, j)`.
pub open spec fn num_val(s: Seq<u8>, i: int, j: int) -> nat
    decreases j - i,
{
    if j <= i {
        0
    } else {
        num_val(s, i, j - 1) * 10 + (s[j - 1] - 48) as nat
    }
}

/// Reads one decimal token at or after `i`: its value and the position just
/// past it. Fails on a missing token, a non-digit, or a value beyond the
/// machine's word.
pub open spec fn rd(s: Seq<u8>, i: int) -> Option<(usize, int)> {
    let start = skip_ws(s, i);
    let end = token_end(s, start);
    if start < end && all_digits(s, start, end) && num_val(s, start, end) <= usize::MAX {
        Some((num_val(s, start, end) as usize, end))
    } else {
        None
    }
}

/// Whether the token at `[start, end)` is the three given bytes.
pub open spec fn tok3(s: Seq<u8>, start: int, end: int, c0: u8, c1: u8, c2: u8) -> bool {
    end - start == 3 && s[start] == c0 && s[start + 1] == c1 && s[start + 2] == c2
}

/// Reads one gate description: input count, output count (always one), the
/// input wires, the output wire, and the operation name.
pub open spec fn spec_parse_gate(s: Seq<u8>, i: int) -> Option<((usize, Gate), int)> {
    match rd(s, i) {
        Option::None => Option::None,
        Option::Some((nin, i1)) => match rd(s, i1) {
            Option::None => Option::None,
            Option::Some((nout, i2)) => if nout != 1 {
                Option::None
            } else if nin == 1 {
                match rd(s, i2) {
                    Option::None => Option::None,
                    Option::Some((a, i3)) => match rd(s, i3) {
                        Option::None => Option::None,
                        Option::Some((o, i4)) => {
                            let start = skip_ws(s, i4);
                            let end = token_end(s, start);
                            if tok3(s, start, end, 73, 78, 86) {  // INV
                                Option::Some(((o, Gate::Inv(a)), end))
                            } else {
                                Option::None
                            }
                        },
                    },
                }
            } else if nin == 2 {
                match rd(s, i2) {
                    Option::None => Option::None,
                    Option::Some((a, i3)) => match rd(s, i3) {
                        Option::None => Option::None,
                        Option::Some((b, i4)) => match rd(s, i4) {
                            Option::None => Option::None,
                            Option::Some((o, i5)) => {
                                let start = skip_ws(s, i5);
                                let end = token_end(s, start);
                                if tok3(s, start, end, 65, 78, 68) {  // AND
                                    Option::Some(((o, Gate::And(a, b)), end))
                                } else if tok3(s, start, end, 88, 79, 82) {  // XOR
                                    Option::Some(((o, Gate::Xor(a, b)), end))
                                } else {
                                    Option::None
                                }
                            },
                        },
                    },
                }
            } else {
                Option::None
            },
        },
    }
}

/// Reads `n` gate descriptions in order.
pub open spec fn spec_parse_gates(s: Seq<u8>, i: int, n: int) -> Option<(
    Seq<(usize, Gate)>,
    int,
)>
    decreases n,
{
    if n <= 0 {
        Option::Some((Seq::empty(), i))
    } else {
        match spec_parse_gates(s, i, n - 1) {
            Option::None => Option::None,
            Option::Some((gs, j)) => match spec_parse_gate(s, j) {
                Option::None => Option::None,
                Option::Some((g, j2)) => Option::Some((gs.push(g), j2)),
            },
        }
    }
}

/// Reads `n` decimal tokens and sums them.
pub open spec fn spec_read_sum(s: Seq<u8>, i: int, n: int) -> Option<(usize, int)>
    decreases n,
{
    if n <= 0 {
        Option::Some((0, i))
    } else {
        match spec_read_sum(s, i, n - 1) {
            Option::None => Option::None,
            Option::Some((acc, j)) => match rd(s, j) {
                Option::None => Option::None,
                Option::Some((v, j2)) => if acc + v <= usize::MAX {
                    Option::Some(((acc + v) as usize, j2))
                } else {
                    Option::None
                },
            },
        }
    }
}

/// Reads a party count followed by that many lengths, summed.
pub open spec fn spec_read_party_sum(s: Seq<u8>, i: int) -> Option<(usize, int)> {
    match rd(s, i) {
        Option::None => Option::None,
        Option::Some((parties, j)) => spec_read_sum(s, j, parties as int),
    }
}

/// How many newline bytes lie in positions `[i, j)`.
pub open spec fn nl_count(s: Seq<u8>, i: int, j: int) -> int
    decreases j - i,
{
    if j <= i {
        0
    } else {
        nl_count(s, i, j - 1) + (if s[j - 1] == 10 {
            1int
        } else {
            0int
        })
    }
}

/// Whether the whitespace run starting at `i` holds a blank line: at least
/// two newlines before the next token.
pub open spec fn blank_line_at(s: Seq<u8>, i: int) -> bool {
    nl_count(s, i, skip_ws(s, i)) >= 2
}

/// The whole circuit text: gate count, wire count, the input and output
/// party lengths, a blank line, and all gates, with nothing but whitespace
/// after the last gate. Succeeds only when the shape laws also hold: inputs
/// plus gates equal the wire count, the output block fits, and every wire
/// index a gate touches is in range.
pub open spec fn spec_parse(s: Seq<u8>) -> Option<(usize, usize, usize, Seq<(usize, Gate)>)> {
    match rd(s, 0) {
        Option::None => Option::None,
        Option::Some((gate_count, i1)) => match rd(s, i1) {
            Option::None => Option::None,
            Option::Some((wire_count, i2)) => match spec_read_party_sum(s, i2) {
                Option::None => Option::None,
                Option::Some((input_length, i3)) => match spec_read_party_sum(s, i3) {
                    Option::None => Option::None,
                    Option::Some((output_length, i4)) => if !blank_line_at(s, i4) {
                        Option::None
                    } else {
                        match spec_parse_gates(s, i4, gate_count as int) {
                            Option::None => Option::None,
                            Option::Some((gates, p)) => if skip_ws(s, p) == s.len()
                                && input_length + gate_count == wire_count && output_length
                                <= wire_count && (forall|k: int|
                                0 <= k < gates.len() ==> (#[trigger] gates[k]).0 < wire_count
                                    && gate_reads_in_range(gates[k].1, wire_count as int)) {
                                Option::Some((input_length, output_length, wire_count, gates))
                            } else {
                                Option::None
                            },
                        }
                    },
                },
            },
        },
    }
}

/// The error reported when the circuit text does not parse: which stage of
/// the description is at fault.
pub open spec fn spec_parse_err(s: Seq<u8>) -> ParseError {
    match rd(s, 0) {
        Option::None => ParseError::BadHeader,
        Option::Some((gate_count, i1)) => match rd(s, i1) {
            Option::None => ParseError::BadHeader,
            Option::Some((wire_count, i2)) => match spec_read_party_sum(s, i2) {
                Option::None => ParseError::BadHeader,
                Option::Some((input_length, i3)) => match spec_read_party_sum(s, i3) {
                    Option::None => ParseError::BadHeader,
                    Option::Some((output_length, i4)) => if !blank_line_at(s, i4) {
                        ParseError::BadHeader
                    } else {
                        match spec_parse_gates(s, i4, gate_count as int) {
                            Option::None => ParseError::BadGate,
                            Option::Some((gates, p)) => if skip_ws(s, p) != s.len() {
                                ParseError::BadGate
                            } else if !(input_length + gate_count == wire_count && output_length
                                <= wire_count) {
                                ParseError::ShapeMismatch
                            } else {
                                ParseError::WireOutOfRange
                            },
                        }
                    },
                },
            },
        },
    }
}

/// Appending digits never shrinks the value.
proof fn lemma_num_val_mono(s: Seq<u8>, i: int, j1: int, j2: int)
    requires
        i <= j1 <= j2,
    ensures
        num_val(s, i, j1) <= num_val(s, i, j2),
    decreases j2 - j1,
{
    if j1 < j2 {
        lemma_num_val_mono(s, i, j1, j2 - 1);
        assert(num_val(s, i, j2 - 1) * 10 >= num_val(s, i, j2 - 1) * 1) by (nonlinear_arith);
    }
}

/// Once a gate fails to parse, no longer prefix parses.
proof fn lemma_parse_gates_none(s: Seq<u8>, i: int, k1: int, k2: int)
    requires
        0 <= k1 <= k2,
        spec_parse_gates(s, i, k1) is None,
    ensures
        spec_parse_gates(s, i, k2) is None,
    decreases k2 - k1,
{
    if k1 < k2 {
        lemma_parse_gates_none(s, i, k1, k2 - 1);
    }
}

/// Once a sum fails to read, no longer sum reads.
proof fn lemma_read_sum_none(s: Seq<u8>, i: int, k1: int, k2: int)
    requires
        0 <= k1 <= k2,
        spec_read_sum(s, i, k1) is None,
    ensures
        spec_read_sum(s, i, k2) is None,
    decreases k2 - k1,
{
    if k1 < k2 {
        lemma_read_sum_none(s, i, k1, k2 - 1);
    }
}

/// Whether a byte is whitespace.
fn ws_byte(b: u8) -> (r: bool)
    ensures
        r == is_ws(b),
{
    b == 32 || b == 9 || b == 10 || b == 13
}

/// The first non-whitespace position at or after `i`.
fn skip_ws_exec(s: &[u8], i: usize) -> (r: usize)
    requires
        i <= s@.len(),
    ensures
        r as int == skip_ws(s@, i as int),
        i <= r <= s@.len(),
{
    let mut j = i;
    while j < s.len()
        invariant
            i <= j <= s@.len(),
            skip_ws(s@, i as int) == skip_ws(s@, j as int),
        decreases s@.len() - j,
    {
        if !ws_byte(s[j]) {
            return j;
        }
        j = j + 1;
    }
    j
}

/// The end of the token starting at `i`.
fn token_end_exec(s: &[u8], i: usize) -> (r: usize)
    requires
        i <= s@.len(),
    ensures
        r as int == token_end(s@, i as int),
        i <= r <= s@.len(),
{
    let mut j = i;
    while j < s.len()
        invariant
            i <= j <= s@.len(),
            token_end(s@, i as int) == token_end(s@, j as int),
        decreases s@.len() - j,
    {
        if ws_byte(s[j]) {
            return j;
        }
        j = j + 1;
    }
    j
}

/// Reads one decimal token, if the next token is one and fits the machine.
fn read_usize(s: &[u8], pos: usize) -> (r: Option<(usize, usize)>)
    requires
        pos <= s@.len(),
    ensures
        (r is Some) <==> (rd(s@, pos as int) is Some),
        r matches Some((v, np)) ==> rd(s@, pos as int) == Some((v, np as int)) && pos <= np
            <= s@.len(),
{
    let start = skip_ws_exec(s, pos);
    let end = token_end_exec(s, start);
    if start == end {
        return None;
    }
    let mut acc: usize = 0;
    let mut j = start;
    while j < end
        invariant
            start <= j <= end <= s@.len(),
            start as int == skip_ws(s@, pos as int),
            end as int == token_end(s@, start as int),
            all_digits(s@, start as int, j as int),
            acc == num_val(s@, start as int, j as int),
        decreases end - j,
    {
        let b = s[j];
        if !(48 <= b && b <= 57) {
            assert(!is_digit(s@[j as int]));
            assert(!all_digits(s@, start as int, end as int));
            return None;
        }
        let d = (b - 48) as usize;
        if acc > (usize::MAX - d) / 10 {
            proof {
                assert(acc * 10 + d > usize::MAX) by (nonlinear_arith)
                    requires
                        acc > (usize::MAX - d) / 10,
                        d <= usize::MAX,
                ;
                assert(num_val(s@, start as int, j as int + 1) > usize::MAX);
                lemma_num_val_mono(s@, start as int, j as int + 1, end as int);
            }
            return None;
        }
        proof {
            assert(acc * 10 + d <= usize::MAX) by (nonlinear_arith)
                requires
                    acc <= (usize::MAX - d) / 10,
                    d <= usize::MAX,
            ;
        }
        acc = acc * 10 + d;
        j = j + 1;
    }
    Some((acc, end))
}

/// Reads the next token when it is a three-letter gate name.
/// Returns 1 for INV, 2 for AND, 3 for XOR.
fn read_op3(s: &[u8], pos: usize) -> (r: Option<(u8, usize)>)
    requires
        pos <= s@.len(),
    ensures
        ({
            let start = skip_ws(s@, pos as int);
            let end = token_end(s@, start);
            &&& (r matches Some((code, np)) ==> np as int == end && np <= s@.len() && ((code == 1
                && tok3(s@, start, end, 73, 78, 86)) || (code == 2 && tok3(s@, start, end, 65, 78, 68))
                || (code == 3 && tok3(s@, start, end, 88, 79, 82))))
            &&& (r is None ==> !tok3(s@, start, end, 73, 78, 86) && !tok3(s@, start, end, 65, 78, 68)
                && !tok3(s@, start, end, 88, 79, 82))
        }),
{
    let start = skip_ws_exec(s, pos);
    let end = token_end_exec(s, start);
    if end - start != 3 {
        return None;
    }
    let b0 = s[start];
    let b1 = s[start + 1];
    let b2 = s[start + 2];
    if b0 == 73 && b1 == 78 && b2 == 86 {
        Some((1, end))
    } else if b0 == 65 && b1 == 78 && b2 == 68 {
        Some((2, end))
    } else if b0 == 88 && b1 == 79 && b2 == 82 {
        Some((3, end))
    } else {
        None
    }
}

/// Reads one gate description.
fn parse_gate(s: &[u8], pos: usize) -> (r: Option<((usize, Gate), usize)>)
    requires
        pos <= s@.len(),
    ensures
        (r is Some) <==> (spec_parse_gate(s@, pos as int) is Some),
        r matches Some((g, np)) ==> spec_parse_gate(s@, pos as int) == Some((g, np as int)) && np
            <= s@.len(),
{
    let (nin, i1) = match read_usize(s, pos) {
        Some(x) => x,
        None => {
            return None;
        },
    };
    let (nout, i2) = match read_usize(s, i1) {
        Some(x) => x,
        None => {
            return None;
        },
    };
    if nout != 1 {
        return None;
    }
    if nin == 1 {
        let (a, i3) = match read_usize(s, i2) {
            Some(x) => x,
            None => {
                return None;
            },
        };
        let (o, i4) = match read_usize(s, i3) {
            Some(x) => x,
            None => {
                return None;
            },
        };
        match read_op3(s, i4) {
            Some((code, i5)) => {
                if code == 1 {
                    Some(((o, Gate::Inv(a)), i5))
                } else {
                    None
                }
            },
            None => None,
        }
    } else if nin == 2 {
        let (a, i3) = match read_usize(s, i2) {
            Some(x) => x,
            None => {
                return None;
            },
        };
        let (b, i4) = match read_usize(s, i3) {
            Some(x) => x,
            None => {
                return None;
            },
        };
        let (o, i5) = match read_usize(s, i4) {
            Some(x) => x,
            None => {
                return None;
            },
        };
        match read_op3(s, i5) {
            Some((code, i6)) => {
                if code == 2 {
                    Some(((o, Gate::And(a, b)), i6))
                } else if code == 3 {
                    Some(((o, Gate::Xor(a, b)), i6))
                } else {
                    None
                }
            },
            None => None,
        }
    } else {
        None
    }
}

/// Reads a party count and sums that many lengths.
fn read_party_sum(s: &[u8], pos: usize) -> (r: Option<(usize, usize)>)
    requires
        pos <= s@.len(),
    ensures
        (r is Some) <==> (spec_read_party_sum(s@, pos as int) is Some),
        r matches Some((v, np)) ==> spec_read_party_sum(s@, pos as int) == Some((v, np as int))
            && np <= s@.len(),
{
    let (parties, j0) = match read_usize(s, pos) {
        Some(x) => x,
        None => {
            return None;
        },
    };
    let mut acc: usize = 0;
    let mut j = j0;
    let mut t: usize = 0;
    while t < parties
        invariant
            t <= parties,
            j <= s@.len(),
            rd(s@, pos as int) == Some::<(usize, int)>((parties, j0 as int)),
            spec_read_sum(s@, j0 as int, t as int) == Some::<(usize, int)>((acc, j as int)),
        decreases parties - t,
    {
        let (v, j2) = match read_usize(s, j) {
            Some(x) => x,
            None => {
                proof {
                    lemma_read_sum_none(s@, j0 as int, t as int + 1, parties as int);
                }
                return None;
            },
        };
        if acc > usize::MAX - v {
            proof {
                lemma_read_sum_none(s@, j0 as int, t as int + 1, parties as int);
            }
            return None;
        }
        acc = acc + v;
        j = j2;
        t = t + 1;
    }
    Some((acc, j))
}

/// Parses a Bristol-style circuit description: gate and wire counts,
/// per-party input and output lengths, a blank line, and all gates,
/// checking the shape laws as it goes. A missing blank separator, text
/// after the last gate, a malformed token or a broken shape law each
/// fail with the matching error. On success, the parsed circuit satisfies
/// `input_length + gates.len() == wire_count` and is structurally
/// well-formed.
pub fn parse_circuit(text: &[u8]) -> (r: Result<Circuit, ParseError>)
    ensures
        (r is Ok) <==> (spec_parse(text@) is Some),
        r matches Ok(c) ==> spec_parse(text@) == Some(
            (
                c.input_length,
                c.output_length,
                (c.input_length + c.gates@.len()) as usize,
                c.gates@,
            ),
        ) && c.wf(),
        r matches Err(e) ==> e == spec_parse_err(text@),
{
    let (gate_count, i1) = match read_usize(text, 0) {
        Some(x) => x,
        None => {
            return Err(ParseError::BadHeader);
        },
    };
    let (wire_count, i2) = match read_usize(text, i1) {
        Some(x) => x,
        None => {
            return Err(ParseError::BadHeader);
        },
    };
    let (input_length, i3) = match read_party_sum(text, i2) {
        Some(x) => x,
        None => {
            return Err(ParseError::BadHeader);
        },
    };
    let (output_length, i4) = match read_party_sum(text, i3) {
        Some(x) => x,
        None => {
            return Err(ParseError::BadHeader);
        },
    };
    let sep_end = skip_ws_exec(text, i4);
    let mut nls: usize = 0;
    let mut sj = i4;
    while sj < sep_end
        invariant
            i4 <= sj <= sep_end <= text@.len(),
            nls <= sj - i4,
            nls == nl_count(text@, i4 as int, sj as int),
        decreases sep_end - sj,
    {
        if text[sj] == 10 {
            nls = nls + 1;
        }
        sj = sj + 1;
    }
    if nls < 2 {
        return Err(ParseError::BadHeader);
    }
    let mut gates: Vec<(usize, Gate)> = Vec::new();
    let mut pos = i4;
    let mut k: usize = 0;
    while k < gate_count
        invariant
            k <= gate_count,
            pos <= text@.len(),
            gates@.len() == k,
            blank_line_at(text@, i4 as int),
            rd(text@, 0) == Some::<(usize, int)>((gate_count, i1 as int)),
            rd(text@, i1 as int) == Some::<(usize, int)>((wire_count, i2 as int)),
            spec_read_party_sum(text@, i2 as int) == Some::<(usize, int)>((
                input_length,
                i3 as int,
            )),
            spec_read_party_sum(text@, i3 as int) == Some::<(usize, int)>((
                output_length,
                i4 as int,
            )),
            spec_parse_gates(text@, i4 as int, k as int) == Some::<(Seq<(usize, Gate)>, int)>(
                (gates@, pos as int),
            ),
        decreases gate_count - k,
    {
        let (g, np) = match parse_gate(text, pos) {
            Some(x) => x,
            None => {
                proof {
                    lemma_parse_gates_none(text@, i4 as int, k as int + 1, gate_count as int);
                }
                return Err(ParseError::BadGate);
            },
        };
        gates.push(g);
        pos = np;
        k = k + 1;
    }
    let rest = skip_ws_exec(text, pos);
    if rest != text.len() {
        return Err(ParseError::BadGate);
    }
    if input_length > wire_count || gate_count != wire_count - input_length {
        return Err(ParseError::ShapeMismatch);
    }
    if output_length > wire_count {
        return Err(ParseError::ShapeMismatch);
    }
    let mut ok = true;
    let mut q: usize = 0;
    while q < gates.len()
        invariant
            q <= gates@.len(),
            ok == (forall|p: int|
                0 <= p < q ==> (#[trigger] gates@[p]).0 < wire_count && gate_reads_in_range(
                    gates@[p].1,
                    wire_count as int,
                )),
        decreases gates@.len() - q,
    {
        let (o, g) = gates[q];
        let valid = match g {
            Gate::Inv(a) => a < wire_count,
            Gate::And(a, b) => a < wire_count && b < wire_count,
            Gate::Xor(a, b) => a < wire_count && b < wire_count,
        };
        ok = ok && o < wire_count && valid;
        q = q + 1;
    }
    if !ok {
        return Err(ParseError::WireOutOfRange);
    }
    let c = Circuit { input_length, output_length, gates };
    proof {
        assert(c.wf());
        assert(spec_parse(text@) == Some(
            (
                c.input_length,
                c.output_length,
                (c.input_length + c.gates@.len()) as usize,
                c.gates@,
            ),
        ));
    }
    Ok(c)
}

} // verus!
