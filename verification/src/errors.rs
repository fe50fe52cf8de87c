use vstd::prelude::*;

verus! {

/// Failure while reading a circuit description.
#[derive(Debug, Clone, Copy, PartialEq, Eq, Structural)]
pub enum ParseError {
    /// The header is missing a number or holds something that is not one.
    BadHeader,
    /// Input length plus gate count does not equal the wire count, or the
    /// output block does not fit in the wire space.
    ShapeMismatch,
    /// A gate line is malformed: wrong arity, unknown operation, or a gate
    /// output count other than one.
    BadGate,
    /// A wire index lies outside the wire space.
    WireOutOfRange,
}

/// Failure while encoding, evaluating or decoding a garbled circuit.
#[derive(Debug, Clone, Copy, PartialEq, Eq, Structural)]
pub enum EvalError {
    /// A label or bit vector has the wrong length or width.
    LengthMismatch,
    /// No ciphertext (or more than one) decrypted cleanly at a gate, or an
    /// output label matched neither stored label.
    DecryptionFailure,
    /// The evaluator needed more AND-gate ciphertexts than the artifact holds.
    CipherExhausted,
}

} // verus!
