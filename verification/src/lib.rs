//! Garbled circuits for secure two-party computation: a boolean-circuit
//! representation with a Bristol-style parser and plaintext evaluator, and
//! two garbling schemes behind one interface — a textbook scheme built on
//! SHA-256 tables, and the Half-Gates scheme with free XOR and two fixed-key
//! AES-128 ciphertexts per AND gate. The per-gate protocol, the wire-label
//! bookkeeping and both evaluators carry machine-checked contracts; the
//! correctness of each scheme against the plaintext evaluator is proved.

pub mod blocks;
pub mod circuit;
pub mod classic;
pub mod classic_correct;
pub mod errors;
pub mod garble;
pub mod half_gates;
pub mod hg_correct;
pub mod parse;
pub mod rng;
pub mod util;
