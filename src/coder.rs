use vstd::prelude::*;

verus! {

/// The one way a decode can fail: its input was not produced by the matching encode.
#[derive(Debug, Clone, Copy, PartialEq, Eq, Structural)]
pub enum CodecError {
    MalformedInput,
}

impl CodecError {
    /// A fixed description of the error.
    pub fn description(&self) -> (r: &'static str) {
        "input file is not properly encoded"
    }
}

/// The value of a codec's result, with the bytes seen as a sequence.
pub open spec fn result_view(r: Result<Vec<u8>, CodecError>) -> Result<Seq<u8>, CodecError> {
    match r {
        Ok(v) => Ok(v@),
        Err(e) => Err(e),
    }
}

/// A reversible transform over byte sequences.
///
/// `encodes` relates an input to the output that encoding it produces under the
/// instance's parameters; `decodes` relates an input to what decoding returns.
/// The parameterless `encode` and `decode` use the instance `standard()`.
pub trait Coder: Sized {
    spec fn standard() -> Self;

    spec fn encodes(&self, input: Seq<u8>, output: Seq<u8>) -> bool;

    spec fn decodes(&self, input: Seq<u8>, r: Result<Seq<u8>, CodecError>) -> bool;

    fn encode(input: &[u8]) -> (r: Result<Vec<u8>, CodecError>)
        ensures
            r is Ok,
            Self::standard().encodes(input@, r->Ok_0@),
    ;

    fn decode(input: &[u8]) -> (r: Result<Vec<u8>, CodecError>)
        ensures
            Self::standard().decodes(input@, result_view(r)),
    ;

    fn encode_s(&self, input: &[u8]) -> (r: Result<Vec<u8>, CodecError>)
        ensures
            r is Ok,
            self.encodes(input@, r->Ok_0@),
    ;

    fn decode_s(&self, input: &[u8]) -> (r: Result<Vec<u8>, CodecError>)
        ensures
            self.decodes(input@, result_view(r)),
    ;
}

} // verus!
