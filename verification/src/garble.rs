use vstd::prelude::*;

use crate::circuit::Circuit;
use crate::errors::EvalError;

verus! {

/// The views of a sequence of viewable values.
pub open spec fn seq_views<T: View>(s: Seq<T>) -> Seq<T::V> {
    s.map_values(|t: T| t@)
}

/// Maps plaintext input bits to input labels.
pub trait GarbledEncoder<T: View>: Sized {
    /// How many input bits this encoder expects.
    spec fn num_inputs(&self) -> nat;

    /// The label handed out for input wire `i` carrying value `v`.
    spec fn label_spec(&self, i: int, v: bool) -> T::V;

    /// Selects, for each input bit, the label of that wire and value.
    fn encode(&self, input: &Vec<bool>) -> (r: Result<Vec<T>, EvalError>)
        ensures
            (r is Ok) <==> input@.len() == self.num_inputs(),
            r matches Ok(labels) ==> labels@.len() == input@.len() && forall|i: int|
                0 <= i < input@.len() ==> (#[trigger] labels@[i])@ == self.label_spec(
                    i,
                    input@[i],
                ),
            r matches Err(e) ==> e == EvalError::LengthMismatch,
    ;
}

/// Maps output labels back to plaintext bits.
pub trait GarbledDecoder<T: View>: Sized {
    /// How many output labels this decoder expects.
    spec fn num_outputs(&self) -> nat;

    /// Whether decoding the given labels succeeds.
    spec fn decode_ok(&self, input: Seq<T::V>) -> bool;

    /// The bits decoded from the given labels.
    spec fn decode_spec(&self, input: Seq<T::V>) -> Seq<bool>;

    /// The error reported when decoding the given labels fails.
    spec fn decode_err(&self, input: Seq<T::V>) -> EvalError;

    /// Turns output labels back into plaintext bits.
    fn decode(&self, input: &Vec<T>) -> (r: Result<Vec<bool>, EvalError>)
        ensures
            (r is Ok) <==> self.decode_ok(seq_views(input@)),
            r matches Ok(bits) ==> bits@ == self.decode_spec(seq_views(input@)),
            r matches Err(e) ==> e == self.decode_err(seq_views(input@)),
    ;
}

/// A garbled circuit artifact: evaluates encoded labels to encoded labels.
pub trait GarbledCircuit<E, D>: Sized where
    E: GarbledEncoder<Self::Label>,
    D: GarbledDecoder<Self::Label>,
 {
    /// The opaque per-wire label type.
    type Label: View;

    /// Internal consistency of the artifact (widths, wire ranges).
    spec fn wf(&self) -> bool;

    /// Whether evaluation of the given input labels succeeds.
    spec fn eval_ok(&self, input: Seq<<Self::Label as View>::V>) -> bool;

    /// The output labels computed from the given input labels.
    spec fn eval_spec(&self, input: Seq<<Self::Label as View>::V>) -> Seq<
        <Self::Label as View>::V,
    >;

    /// The error reported when evaluation of the given input labels fails.
    spec fn eval_err(&self, input: Seq<<Self::Label as View>::V>) -> EvalError;

    /// Whether this artifact, with the given tables, is a garbling of `c`.
    spec fn is_garbling_of(&self, encoder: &E, decoder: &D, c: Circuit) -> bool;

    /// Walks the gates over encoded labels, never learning a wire value.
    fn evaluate(&self, input: Vec<Self::Label>) -> (r: Result<Vec<Self::Label>, EvalError>)
        requires
            self.wf(),
        ensures
            (r is Ok) <==> self.eval_ok(seq_views(input@)),
            r matches Ok(out) ==> seq_views(out@) == self.eval_spec(seq_views(input@)),
            r matches Err(e) ==> e == self.eval_err(seq_views(input@)),
    ;

    /// Garbles a circuit: samples fresh randomness and builds the artifact,
    /// the input encoder and the output decoder.
    fn garble_circuit(circuit: &Circuit) -> (r: (Self, E, D))
        requires
            circuit.wf(),
            circuit.topology_ok(),
        ensures
            r.0.wf(),
            r.0.is_garbling_of(&r.1, &r.2, *circuit),
    ;

    /// Encodes the input bits, evaluates the garbled circuit, and decodes
    /// the resulting output labels.
    fn garble_compute(&self, encoder: &E, decoder: &D, input: &Vec<bool>) -> (r: Result<
        Vec<bool>,
        EvalError,
    >)
        requires
            self.wf(),
        default_ensures
            (r is Ok) <==> {
                &&& input@.len() == encoder.num_inputs()
                &&& self.eval_ok(encoded_views(encoder, input@))
                &&& decoder.decode_ok(self.eval_spec(encoded_views(encoder, input@)))
            },
            r matches Ok(bits) ==> bits@ == decoder.decode_spec(
                self.eval_spec(encoded_views(encoder, input@)),
            ),
    {
        let labels = match encoder.encode(input) {
            Ok(l) => l,
            Err(e) => {
                return Err(e);
            },
        };
        assert(seq_views(labels@) =~= encoded_views(encoder, input@));
        let outputs = match self.evaluate(labels) {
            Ok(o) => o,
            Err(e) => {
                return Err(e);
            },
        };
        decoder.decode(&outputs)
    }
}

/// The label views an encoder hands out for the given input bits.
pub open spec fn encoded_views<T: View, E: GarbledEncoder<T>>(encoder: &E, input: Seq<bool>) -> Seq<
    T::V,
> {
    Seq::new(input.len(), |i: int| encoder.label_spec(i, input[i]))
}

} // verus!
