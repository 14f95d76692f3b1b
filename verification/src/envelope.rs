//! The versioned envelope: a kind tag, a schema identifier, a numeric schema
//! version, and a canonically encoded body.

use vstd::prelude::*;

use crate::canon::{
    enc_data, strict_ok, to_canonical_cbor, valid_data, CanonValue, EncodeError,
};
use crate::decode::{decode_spec, from_canonical_cbor, DecodeError};

verus! {

/// A versioned wrapper around one canonically encoded payload.
pub struct Envelope {
    /// Payload kind tag.
    pub kind: String,
    /// Schema identifier, e.g. `greentic.component.qa@0.6.0`.
    pub schema_id: String,
    /// Numeric schema version.
    pub schema_version: u32,
    /// Canonically encoded body bytes.
    pub body: Vec<u8>,
}

/// Why an envelope operation failed.
#[derive(Debug)]
pub enum EnvelopeError {
    /// The body bytes do not decode as one canonical item.
    Decode(DecodeError),
    /// The decoded body re-encodes to different bytes than stored.
    CanonicalMismatch,
}

impl Envelope {
    /// Builds an envelope by canonically encoding `value` under the strict
    /// float policy.
    pub fn new(kind: &str, schema_id: &str, schema_version: u32, value: &CanonValue) -> (r: Result<
        Envelope,
        EncodeError,
    >)
        requires
            valid_data(value@),
        ensures
            r is Ok <==> strict_ok(value@),
            r matches Ok(env) ==> env.kind@ == kind@ && env.schema_id@ == schema_id@
                && env.schema_version == schema_version && env.body@ == enc_data(value@),
    {
        let body = to_canonical_cbor(value)?;
        Ok(
            Envelope {
                kind: kind.to_owned(),
                schema_id: schema_id.to_owned(),
                schema_version,
                body,
            },
        )
    }

    /// Decodes the body back into a canonical value; fails exactly when the
    /// body is not the canonical encoding of one valid value.
    pub fn decode_body(&self) -> (r: Result<CanonValue, DecodeError>)
        ensures
            match r {
                Ok(v) => valid_data(v@) && enc_data(v@) == self.body@ && decode_spec(self.body@)
                    == Some(v@),
                Err(_) => decode_spec(self.body@) is None,
            },
    {
        from_canonical_cbor(&self.body)
    }

    /// Checks that the stored body is in canonical form: decodes it and
    /// fails unless re-encoding reproduces the stored bytes exactly.
    pub fn ensure_canonical(&self) -> (r: Result<(), EnvelopeError>)
        ensures
            r is Ok <==> decode_spec(self.body@) is Some,
    {
        match from_canonical_cbor(&self.body) {
            Err(e) => Err(EnvelopeError::Decode(e)),
            Ok(v) => {
                let bytes = crate::canon::to_canonical_cbor_allow_floats(&v);
                match bytes {
                    Err(_) => Err(EnvelopeError::CanonicalMismatch),
                    Ok(b) => {
                        if eq_bytes(&b, &self.body) {
                            Ok(())
                        } else {
                            Err(EnvelopeError::CanonicalMismatch)
                        }
                    },
                }
            },
        }
    }
}

/// Byte-for-byte equality of two buffers.
#[verifier::loop_isolation(false)]
pub fn eq_bytes(a: &Vec<u8>, b: &Vec<u8>) -> (r: bool)
    ensures
        r == (a@ == b@),
{
    broadcast use vstd::std_specs::vec::group_vec_axioms, vstd::seq::group_seq_axioms;

    if a.len() != b.len() {
        return false;
    }
    let mut i: usize = 0;
    while i < a.len()
        invariant
            i <= a@.len(),
            a@.len() == b@.len(),
            forall|j: int| 0 <= j < i ==> a@[j] == b@[j],
        decreases a@.len() - i,
    {
        if a[i] != b[i] {
            return false;
        }
        i += 1;
    }
    proof {
        assert(a@ =~= b@);
    }
    true
}

} // verus!
