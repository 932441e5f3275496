//! Digests over byte strings: the 32-byte hash values that authenticate
//! state values, keys and tree positions, and the canonical placeholder
//! digest that stands for an empty subtree.

use vstd::prelude::*;
use sha3::Digest;

verus! {

/// Domain separator prepended when hashing a value's byte buffer.
pub const VALUE_DOMAIN: u8 = 1;
/// Domain separator prepended when hashing a state key.
pub const KEY_DOMAIN: u8 = 2;
/// Domain separator prepended when hashing a leaf (hashed key plus value digest).
pub const LEAF_DOMAIN: u8 = 3;
/// Domain separator prepended when combining two digests into an internal digest.
pub const NODE_DOMAIN: u8 = 4;

/// The digest that SHA3-256 assigns to a byte string. The result is a
/// function of the input alone; nothing further is assumed of it.
pub uninterp spec fn sha3_of(input: Seq<u8>) -> Seq<u8>;

/// Relies on sha3::Sha3_256 (the FIPS-202 SHA3-256 function): the digest
/// depends on the input bytes alone and is exactly 32 bytes long.
#[verifier::external_body]
fn sha3_digest(input: &Vec<u8>) -> (r: Vec<u8>)
    ensures
        r@ == sha3_of(input@),
        r@.len() == 32,
{
    sha3::Sha3_256::digest(input.as_slice()).to_vec()
}

/// Digest of a value's byte buffer, under its own domain separator.
pub open spec fn value_hash_spec(bytes: Seq<u8>) -> Seq<u8> {
    sha3_of(seq![VALUE_DOMAIN] + bytes)
}

/// Digest of a state key, under its own domain separator.
pub open spec fn key_hash_spec(key: Seq<u8>) -> Seq<u8> {
    sha3_of(seq![KEY_DOMAIN] + key)
}

/// Digest of a leaf: hashed key and value digest, under the leaf separator.
pub open spec fn leaf_hash_spec(key: Seq<u8>, value_bytes: Seq<u8>) -> Seq<u8> {
    sha3_of(seq![LEAF_DOMAIN] + key_hash_spec(key) + value_hash_spec(value_bytes))
}

/// Digest of an internal position: two child digests under the node separator.
pub open spec fn node_hash_spec(left: Seq<u8>, right: Seq<u8>) -> Seq<u8> {
    sha3_of(seq![NODE_DOMAIN] + left + right)
}

/// The canonical placeholder digest for an empty subtree. It is a fixed
/// 32-byte constant, never the output of the digest wrapper.
pub open spec fn placeholder_spec() -> Seq<u8> {
    Seq::new(32, |i: int| 0u8)
}

/// A 32-byte digest. Values are produced by the hashing routines below and
/// compared byte for byte.
#[derive(Debug)]
pub struct HashValue {
    bytes: Vec<u8>,
}

impl View for HashValue {
    type V = Seq<u8>;

    closed spec fn view(&self) -> Seq<u8> {
        self.bytes@
    }
}

impl HashValue {
    /// Wraps raw digest bytes.
    pub fn from_vec(bytes: Vec<u8>) -> (r: HashValue)
        ensures
            r@ == bytes@,
    {
        HashValue { bytes }
    }

    /// The digest as a byte vector.
    pub fn to_vec(&self) -> (r: Vec<u8>)
        ensures
            r@ == self@,
    {
        copy_bytes(&self.bytes)
    }

    /// Byte-for-byte equality of two digests.
    pub fn equals(&self, other: &HashValue) -> (r: bool)
        ensures
            r == (self@ == other@),
    {
        bytes_eq(&self.bytes, &other.bytes)
    }

    /// Whether this digest is the canonical empty-subtree placeholder.
    pub fn is_placeholder(&self) -> (r: bool)
        ensures
            r == (self@ == placeholder_spec()),
    {
        let p = placeholder_hash();
        self.equals(&p)
    }
}

impl Clone for HashValue {
    fn clone(&self) -> (r: Self)
        ensures
            r@ == self@,
    {
        HashValue { bytes: copy_bytes(&self.bytes) }
    }
}

/// The placeholder digest as a value.
pub fn placeholder_hash() -> (r: HashValue)
    ensures
        r@ == placeholder_spec(),
{
    let mut bytes: Vec<u8> = Vec::new();
    let mut i: usize = 0;
    while i < 32
        invariant
            i <= 32,
            bytes@ == Seq::new(i as nat, |j: int| 0u8),
        decreases 32 - i,
    {
        bytes.push(0u8);
        proof {
            assert(bytes@ =~= Seq::new((i + 1) as nat, |j: int| 0u8));
        }
        i = i + 1;
    }
    proof {
        assert(bytes@ =~= placeholder_spec());
    }
    HashValue { bytes }
}

/// Byte-for-byte equality of two byte vectors.
pub fn bytes_eq(a: &Vec<u8>, b: &Vec<u8>) -> (r: bool)
    ensures
        r == (a@ == b@),
{
    if a.len() != b.len() {
        return false;
    }
    let mut i: usize = 0;
    while i < a.len()
        invariant
            a@.len() == b@.len(),
            i <= a@.len(),
            forall|j: int| 0 <= j < i ==> a@[j] == b@[j],
        decreases a@.len() - i,
    {
        if a[i] != b[i] {
            return false;
        }
        i = i + 1;
    }
    proof {
        assert(a@ =~= b@);
    }
    true
}

/// A copy of a byte vector.
pub fn copy_bytes(src: &Vec<u8>) -> (r: Vec<u8>)
    ensures
        r@ == src@,
{
    let mut out: Vec<u8> = Vec::new();
    let mut i: usize = 0;
    while i < src.len()
        invariant
            i <= src@.len(),
            out@ == src@.take(i as int),
        decreases src@.len() - i,
    {
        out.push(src[i]);
        proof {
            assert(out@ =~= src@.take(i + 1 as int));
        }
        i = i + 1;
    }
    proof {
        assert(out@ =~= src@);
    }
    out
}

/// Appends every byte of `src` to `dst`.
pub fn push_all(dst: &mut Vec<u8>, src: &Vec<u8>)
    ensures
        final(dst)@ == old(dst)@ + src@,
{
    let mut i: usize = 0;
    while i < src.len()
        invariant
            i <= src@.len(),
            dst@ == old(dst)@ + src@.take(i as int),
        decreases src@.len() - i,
    {
        dst.push(src[i]);
        proof {
            assert(dst@ =~= old(dst)@ + src@.take(i + 1 as int));
        }
        i = i + 1;
    }
    proof {
        assert(dst@ =~= old(dst)@ + src@);
    }
}

/// Digest of a value's byte buffer.
pub fn compute_value_hash(bytes: &Vec<u8>) -> (r: HashValue)
    ensures
        r@ == value_hash_spec(bytes@),
        r@.len() == 32,
{
    let mut buf: Vec<u8> = Vec::new();
    buf.push(VALUE_DOMAIN);
    push_all(&mut buf, bytes);
    proof {
        assert(buf@ =~= seq![VALUE_DOMAIN] + bytes@);
    }
    HashValue { bytes: sha3_digest(&buf) }
}

/// Digest of a state key's bytes.
pub fn compute_key_hash(key_bytes: &Vec<u8>) -> (r: HashValue)
    ensures
        r@ == key_hash_spec(key_bytes@),
        r@.len() == 32,
{
    let mut buf: Vec<u8> = Vec::new();
    buf.push(KEY_DOMAIN);
    push_all(&mut buf, key_bytes);
    proof {
        assert(buf@ =~= seq![KEY_DOMAIN] + key_bytes@);
    }
    HashValue { bytes: sha3_digest(&buf) }
}

/// Digest of a leaf from the hashed key and the value's digest.
pub fn compute_leaf_hash(key_hash: &HashValue, value_hash: &HashValue) -> (r: HashValue)
    ensures
        r@ == sha3_of(seq![LEAF_DOMAIN] + key_hash@ + value_hash@),
{
    let mut buf: Vec<u8> = Vec::new();
    buf.push(LEAF_DOMAIN);
    push_all(&mut buf, &key_hash.bytes);
    push_all(&mut buf, &value_hash.bytes);
    proof {
        assert(buf@ =~= seq![LEAF_DOMAIN] + key_hash@ + value_hash@);
    }
    HashValue { bytes: sha3_digest(&buf) }
}

/// Digest of an internal position from its two children.
pub fn compute_node_hash(left: &HashValue, right: &HashValue) -> (r: HashValue)
    ensures
        r@ == node_hash_spec(left@, right@),
{
    let mut buf: Vec<u8> = Vec::new();
    buf.push(NODE_DOMAIN);
    push_all(&mut buf, &left.bytes);
    push_all(&mut buf, &right.bytes);
    proof {
        assert(buf@ =~= seq![NODE_DOMAIN] + left@ + right@);
    }
    HashValue { bytes: sha3_digest(&buf) }
}

} // verus!
