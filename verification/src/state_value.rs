//! State keys, state values with their cached digest, the stale-index
//! record, and the wire form of a value (only the bytes travel; the digest
//! is recomputed on decode so a corrupted external digest cannot be
//! injected).

use vstd::prelude::*;
use crate::hashing;
use crate::hashing::HashValue;

verus! {

/// Longest byte buffer the wire form accepts: the serializer's own
/// sequence-length ceiling.
pub const MAX_WIRE_BYTES: usize = 2147483647;

/// Opaque, comparable identifier of a logical storage slot.
#[derive(Debug)]
pub struct StateKey {
    bytes: Vec<u8>,
}

impl View for StateKey {
    type V = Seq<u8>;

    closed spec fn view(&self) -> Seq<u8> {
        self.bytes@
    }
}

impl StateKey {
    /// A key over the given bytes.
    pub fn new(bytes: Vec<u8>) -> (r: StateKey)
        ensures
            r@ == bytes@,
    {
        StateKey { bytes }
    }

    /// The key's bytes.
    pub fn bytes(&self) -> (r: &Vec<u8>)
        ensures
            r@ == self@,
    {
        &self.bytes
    }

    /// Byte-for-byte equality of two keys.
    pub fn equals(&self, other: &StateKey) -> (r: bool)
        ensures
            r == (self@ == other@),
    {
        hashing::bytes_eq(&self.bytes, &other.bytes)
    }

    /// The key's digest, used to address it in the authenticated structure.
    pub fn hash(&self) -> (r: HashValue)
        ensures
            r@ == hashing::key_hash_spec(self@),
    {
        hashing::compute_key_hash(&self.bytes)
    }
}

impl Clone for StateKey {
    fn clone(&self) -> (r: Self)
        ensures
            r@ == self@,
    {
        StateKey { bytes: hashing::copy_bytes(&self.bytes) }
    }
}

/// A byte-string value together with its digest, computed once at
/// construction and cached for the value's lifetime.
#[derive(Debug)]
pub struct StateValue {
    bytes: Vec<u8>,
    hash: HashValue,
}

impl View for StateValue {
    type V = Seq<u8>;

    closed spec fn view(&self) -> Seq<u8> {
        self.bytes@
    }
}

impl StateValue {
    /// The cached digest is always the digest of the bytes.
    #[verifier::type_invariant]
    spec fn inv(self) -> bool {
        self.hash@ == hashing::value_hash_spec(self.bytes@)
    }

    /// A value over the given bytes; the digest is computed here.
    pub fn new(bytes: Vec<u8>) -> (r: StateValue)
        ensures
            r@ == bytes@,
    {
        let hash = hashing::compute_value_hash(&bytes);
        StateValue { bytes, hash }
    }

    /// The number of bytes the value holds.
    pub fn size(&self) -> (r: usize)
        ensures
            r == self@.len(),
    {
        self.bytes.len()
    }

    /// The value's bytes.
    pub fn bytes(&self) -> (r: &Vec<u8>)
        ensures
            r@ == self@,
    {
        &self.bytes
    }

    /// The cached digest; always consistent with the bytes.
    pub fn hash(&self) -> (r: HashValue)
        ensures
            r@ == hashing::value_hash_spec(self@),
    {
        proof {
            use_type_invariant(&*self);
        }
        self.hash.clone()
    }

    /// The wire form of the value: only the bytes are encoded, never the
    /// cached digest.
    pub fn serialize(&self) -> (r: Vec<u8>)
        requires
            self@.len() <= MAX_WIRE_BYTES,
        ensures
            r@ == wire_bytes_of(self@),
    {
        bcs_serialize_bytes(&self.bytes)
    }

    /// Decodes a wire form. The digest of the result is recomputed from the
    /// recovered bytes, so a round trip reproduces the digest of the
    /// original bytes.
    pub fn deserialize(encoded: &Vec<u8>) -> (r: Option<StateValue>)
        ensures
            r matches Some(v) ==> v@.len() <= MAX_WIRE_BYTES && encoded@ == wire_bytes_of(v@),
            r is None ==> forall|s: Seq<u8>| s.len() <= MAX_WIRE_BYTES ==> encoded@ != wire_bytes_of(s),
            r matches Some(v) ==> forall|s: Seq<u8>|
                s.len() <= MAX_WIRE_BYTES && encoded@ == wire_bytes_of(s) ==> v@ == s,
    {
        match bcs_deserialize_bytes(encoded) {
            Some(bytes) => Some(StateValue::new(bytes)),
            None => None,
        }
    }
}

impl Clone for StateValue {
    fn clone(&self) -> (r: Self)
        ensures
            r@ == self@,
    {
        proof {
            use_type_invariant(&*self);
        }
        StateValue { bytes: hashing::copy_bytes(&self.bytes), hash: self.hash.clone() }
    }
}

/// Records that the value written for `state_key` at `version` stopped
/// being the latest when the write at `stale_since_version` superseded it.
#[derive(Debug)]
pub struct StaleStateValueIndex {
    /// The version whose write overwrote the record, making it stale.
    pub stale_since_version: u64,
    /// The version of the now-obsolete record itself.
    pub version: u64,
    /// The key whose record became stale.
    pub state_key: StateKey,
}

impl Clone for StaleStateValueIndex {
    fn clone(&self) -> (r: Self)
        ensures
            r.stale_since_version == self.stale_since_version,
            r.version == self.version,
            r.state_key@ == self.state_key@,
    {
        StaleStateValueIndex {
            stale_since_version: self.stale_since_version,
            version: self.version,
            state_key: self.state_key.clone(),
        }
    }
}

/// The canonical wire encoding of a byte string. The encoding is a function
/// of the bytes alone, and decoding is its exact inverse.
pub uninterp spec fn wire_bytes_of(payload: Seq<u8>) -> Seq<u8>;

/// Relies on bcs::to_bytes: the canonical, deterministic encoding of a byte
/// vector. It fails only on sequences longer than bcs::MAX_SEQUENCE_LENGTH,
/// which the precondition rules out.
#[verifier::external_body]
fn bcs_serialize_bytes(payload: &Vec<u8>) -> (r: Vec<u8>)
    requires
        payload@.len() <= MAX_WIRE_BYTES,
    ensures
        r@ == wire_bytes_of(payload@),
{
    bcs::to_bytes(payload).unwrap()
}

/// Relies on bcs::from_bytes: it accepts exactly the canonical encodings,
/// rejects trailing input, and recovers exactly the encoded payload (the
/// format guarantees one encoding per value and a lossless round trip).
#[verifier::external_body]
fn bcs_deserialize_bytes(encoded: &Vec<u8>) -> (r: Option<Vec<u8>>)
    ensures
        r matches Some(v) ==> v@.len() <= MAX_WIRE_BYTES && encoded@ == wire_bytes_of(v@),
        r is None ==> forall|s: Seq<u8>| s.len() <= MAX_WIRE_BYTES ==> encoded@ != wire_bytes_of(s),
        r matches Some(v) ==> forall|s: Seq<u8>|
            s.len() <= MAX_WIRE_BYTES && encoded@ == wire_bytes_of(s) ==> v@ == s,
{
    match bcs::from_bytes::<Vec<u8>>(encoded.as_slice()) {
        Ok(v) => Some(v),
        Err(_) => None,
    }
}

} // verus!
