//! Chunked snapshot transfer: a chunk is a contiguous slice of the
//! key-ordered snapshot at one version, carried with the sibling digests
//! that let a consumer check the slice against the snapshot's root digest.
//!
//! The root digest folds the leaf digests in order, starting from the
//! canonical placeholder. A chunk's proof brackets its range: one left
//! sibling, the fold of everything before the range, and one right sibling
//! per leaf after the range.

use vstd::prelude::*;
use crate::StateStoreError;
use crate::hashing;
use crate::hashing::HashValue;
use crate::state_value::{StateKey, StateValue};
use crate::store::kvs_of;

verus! {

/// The models of a sequence of digests.
pub open spec fn hashes_of(s: Seq<HashValue>) -> Seq<Seq<u8>> {
    s.map_values(|h: HashValue| h@)
}

/// Folds digests into an accumulator, left to right.
pub open spec fn chain_hashes(acc: Seq<u8>, hs: Seq<Seq<u8>>) -> Seq<u8>
    decreases hs.len(),
{
    if hs.len() == 0 {
        acc
    } else {
        chain_hashes(hashing::node_hash_spec(acc, hs.first()), hs.drop_first())
    }
}

/// The digest of each leaf.
pub open spec fn leaf_hashes(leaves: Seq<(Seq<u8>, Seq<u8>)>) -> Seq<Seq<u8>> {
    leaves.map_values(|l: (Seq<u8>, Seq<u8>)| hashing::leaf_hash_spec(l.0, l.1))
}

/// The root digest of a snapshot: its leaf digests folded from the
/// placeholder.
pub open spec fn root_spec(leaves: Seq<(Seq<u8>, Seq<u8>)>) -> Seq<u8> {
    chain_hashes(hashing::placeholder_spec(), leaf_hashes(leaves))
}

/// Folding a concatenation folds the two parts in turn.
pub proof fn lemma_chain_append(acc: Seq<u8>, a: Seq<Seq<u8>>, b: Seq<Seq<u8>>)
    ensures
        chain_hashes(acc, a + b) == chain_hashes(chain_hashes(acc, a), b),
    decreases a.len(),
{
    if a.len() == 0 {
        assert(a + b =~= b);
        assert(chain_hashes(acc, a) == acc);
    } else {
        assert((a + b).first() == a.first());
        assert((a + b).drop_first() =~= a.drop_first() + b);
        lemma_chain_append(hashing::node_hash_spec(acc, a.first()), a.drop_first(), b);
    }
}

/// Folding one more digest applies one more combining step.
pub proof fn lemma_chain_snoc(acc: Seq<u8>, hs: Seq<Seq<u8>>, h: Seq<u8>)
    ensures
        chain_hashes(acc, hs.push(h)) == hashing::node_hash_spec(chain_hashes(acc, hs), h),
{
    assert(hs.push(h) =~= hs + seq![h]);
    lemma_chain_append(acc, hs, seq![h]);
    let tail = seq![h].drop_first();
    assert(tail =~= Seq::<Seq<u8>>::empty());
    assert(seq![h].first() == h);
    assert(chain_hashes(chain_hashes(acc, hs), seq![h]) == chain_hashes(
        hashing::node_hash_spec(chain_hashes(acc, hs), h),
        tail,
    ));
    assert(chain_hashes(hashing::node_hash_spec(chain_hashes(acc, hs), h), tail)
        == hashing::node_hash_spec(chain_hashes(acc, hs), h));
}

/// The sibling digests bracketing a chunk's range: the left sibling is the
/// fold of everything before the range; each right sibling is the digest
/// of one leaf after the range, in order.
#[derive(Debug)]
pub struct SparseMerkleRangeProof {
    left_siblings: Vec<HashValue>,
    right_siblings: Vec<HashValue>,
}

impl SparseMerkleRangeProof {
    /// The left siblings, as digests.
    pub closed spec fn left_view(self) -> Seq<Seq<u8>> {
        hashes_of(self.left_siblings@)
    }

    /// The right siblings, as digests.
    pub closed spec fn right_view(self) -> Seq<Seq<u8>> {
        hashes_of(self.right_siblings@)
    }

    /// A proof from its two sibling lists.
    pub fn new(left_siblings: Vec<HashValue>, right_siblings: Vec<HashValue>) -> (r: Self)
        ensures
            r.left_view() == hashes_of(left_siblings@),
            r.right_view() == hashes_of(right_siblings@),
    {
        SparseMerkleRangeProof { left_siblings, right_siblings }
    }

    /// The right siblings.
    pub fn right_siblings(&self) -> (r: &Vec<HashValue>)
        ensures
            hashes_of(r@) == self.right_view(),
    {
        &self.right_siblings
    }

    /// The left siblings.
    pub fn left_siblings(&self) -> (r: &Vec<HashValue>)
        ensures
            hashes_of(r@) == self.left_view(),
    {
        &self.left_siblings
    }
}

/// A self-contained, verifiable slice of the full key-ordered state at one
/// version.
#[derive(Debug)]
pub struct StateValueChunkWithProof {
    /// Ordinal of the first leaf in the chunk.
    pub first_index: u64,
    /// Ordinal of the last leaf in the chunk.
    pub last_index: u64,
    /// Hashed key of the first leaf.
    pub first_key: HashValue,
    /// Hashed key of the last leaf.
    pub last_key: HashValue,
    /// The keys and values the chunk carries.
    pub raw_values: Vec<(StateKey, StateValue)>,
    /// The sibling digests bracketing the range.
    pub proof: SparseMerkleRangeProof,
    /// The root digest the proof verifies against.
    pub root_hash: HashValue,
}

impl StateValueChunkWithProof {
    /// Whether the chunk's proof verifies: folding the left sibling, the
    /// chunk's own leaf digests and the right siblings reproduces the root.
    pub open spec fn verifies(self) -> bool {
        &&& self.proof.left_view().len() == 1
        &&& chain_hashes(
            chain_hashes(self.proof.left_view()[0], leaf_hashes(kvs_of(self.raw_values@))),
            self.proof.right_view(),
        ) == self.root_hash@
    }

    /// Whether every right sibling is the empty-subtree placeholder, the
    /// sign that no leaf lies beyond the chunk.
    pub open spec fn is_last_spec(self) -> bool {
        forall|k: int|
            0 <= k < self.proof.right_view().len()
                ==> self.proof.right_view()[k] == hashing::placeholder_spec()
    }

    /// True iff this chunk is the last one: every right sibling equals the
    /// placeholder digest.
    pub fn is_last_chunk(&self) -> (r: bool)
        ensures
            r == self.is_last_spec(),
    {
        let right_siblings = self.proof.right_siblings();
        let mut k: usize = 0;
        while k < right_siblings.len()
            invariant
                k <= right_siblings@.len(),
                hashes_of(right_siblings@) == self.proof.right_view(),
                forall|m: int|
                    0 <= m < k ==> self.proof.right_view()[m] == hashing::placeholder_spec(),
            decreases right_siblings@.len() - k,
        {
            if !right_siblings[k].is_placeholder() {
                proof {
                    assert(self.proof.right_view()[k as int] != hashing::placeholder_spec());
                }
                return false;
            }
            k = k + 1;
        }
        true
    }

    /// Checks the chunk against its own root digest.
    pub fn verify(&self) -> (r: Result<(), StateStoreError>)
        ensures
            r is Ok <==> self.verifies(),
            r is Err ==> r->Err_0 == StateStoreError::ProofVerificationFailed,
    {
        let left = self.proof.left_siblings();
        if left.len() != 1 {
            return Err(StateStoreError::ProofVerificationFailed);
        }
        let mut acc: HashValue = left[0].clone();
        let ghost lh = leaf_hashes(kvs_of(self.raw_values@));
        proof {
            assert(acc@ == self.proof.left_view()[0]);
            assert(lh.take(0) =~= Seq::<Seq<u8>>::empty());
        }
        let mut i: usize = 0;
        while i < self.raw_values.len()
            invariant
                i <= self.raw_values@.len(),
                lh == leaf_hashes(kvs_of(self.raw_values@)),
                lh.len() == self.raw_values@.len(),
                acc@ == chain_hashes(self.proof.left_view()[0], lh.take(i as int)),
            decreases self.raw_values@.len() - i,
        {
            let key_hash = self.raw_values[i].0.hash();
            let value_hash = self.raw_values[i].1.hash();
            let leaf = hashing::compute_leaf_hash(&key_hash, &value_hash);
            proof {
                assert(leaf@ == lh[i as int]);
                lemma_chain_snoc(self.proof.left_view()[0], lh.take(i as int), lh[i as int]);
                assert(lh.take(i as int).push(lh[i as int]) =~= lh.take(i + 1 as int));
            }
            acc = hashing::compute_node_hash(&acc, &leaf);
            i = i + 1;
        }
        proof {
            assert(lh.take(self.raw_values@.len() as int) =~= lh);
        }
        let ghost mid = chain_hashes(self.proof.left_view()[0], lh);
        let right = self.proof.right_siblings();
        let ghost rh = self.proof.right_view();
        let mut k: usize = 0;
        proof {
            assert(rh.take(0) =~= Seq::<Seq<u8>>::empty());
        }
        while k < right.len()
            invariant
                k <= right@.len(),
                hashes_of(right@) == rh,
                rh == self.proof.right_view(),
                acc@ == chain_hashes(mid, rh.take(k as int)),
                mid == chain_hashes(self.proof.left_view()[0], leaf_hashes(
                    kvs_of(self.raw_values@),
                )),
            decreases right@.len() - k,
        {
            let sibling = &right[k];
            proof {
                assert(sibling@ == rh[k as int]);
                lemma_chain_snoc(mid, rh.take(k as int), rh[k as int]);
                assert(rh.take(k as int).push(rh[k as int]) =~= rh.take(k + 1 as int));
            }
            acc = hashing::compute_node_hash(&acc, sibling);
            k = k + 1;
        }
        proof {
            assert(rh.take(right@.len() as int) =~= rh);
        }
        if acc.equals(&self.root_hash) {
            Ok(())
        } else {
            Err(StateStoreError::ProofVerificationFailed)
        }
    }
}

/// The position one past a chunk's last leaf: the range is cut to the
/// item budget, never past the snapshot's end.
pub open spec fn chunk_end(start: int, max_items: int, len: int) -> int {
    if start + max_items < len {
        start + max_items
    } else {
        len
    }
}

/// Cuts one chunk out of the snapshot's leaves: up to `max_items` pairs
/// beginning at ordinal `start`, with the proof bracketing the range and
/// the root digest of the whole snapshot.
pub fn produce_chunk_from_leaves(
    leaves: &Vec<(StateKey, StateValue)>,
    start: usize,
    max_items: usize,
) -> (r: Result<StateValueChunkWithProof, StateStoreError>)
    requires
        max_items >= 1,
    ensures
        match r {
            Ok(c) => {
                let all = kvs_of(leaves@);
                let end = chunk_end(start as int, max_items as int, all.len() as int);
                &&& (start as int) < all.len()
                &&& c.first_index == start
                &&& c.last_index == end - 1
                &&& c.first_key@ == hashing::key_hash_spec(all[start as int].0)
                &&& c.last_key@ == hashing::key_hash_spec(all[end - 1].0)
                &&& kvs_of(c.raw_values@) == all.subrange(start as int, end)
                &&& c.root_hash@ == root_spec(all)
                &&& c.proof.right_view() == leaf_hashes(all).skip(end)
                &&& c.verifies()
                &&& (end == all.len() ==> c.is_last_spec())
            },
            Err(e) => {
                &&& e == StateStoreError::NotFound
                &&& start as int >= kvs_of(leaves@).len()
            },
        },
{
    let total = leaves.len();
    if start >= total {
        return Err(StateStoreError::NotFound);
    }
    let end = if total - start <= max_items {
        total
    } else {
        start + max_items
    };
    let ghost all = kvs_of(leaves@);
    let ghost lh = leaf_hashes(all);
    proof {
        assert(all.len() == leaves@.len());
        assert(lh.len() == all.len());
        assert(end as int == chunk_end(start as int, max_items as int, all.len() as int));
    }

    // Fold the leaves before the range: the single left sibling.
    let mut acc = hashing::placeholder_hash();
    proof {
        assert(lh.take(0) =~= Seq::<Seq<u8>>::empty());
    }
    let mut i: usize = 0;
    while i < start
        invariant
            i <= start <= end <= leaves@.len(),
            all == kvs_of(leaves@),
            lh == leaf_hashes(all),
            lh.len() == leaves@.len(),
            acc@ == chain_hashes(hashing::placeholder_spec(), lh.take(i as int)),
        decreases start - i,
    {
        let key_hash = leaves[i].0.hash();
        let value_hash = leaves[i].1.hash();
        let leaf = hashing::compute_leaf_hash(&key_hash, &value_hash);
        proof {
            assert(leaf@ == lh[i as int]);
            lemma_chain_snoc(hashing::placeholder_spec(), lh.take(i as int), lh[i as int]);
            assert(lh.take(i as int).push(lh[i as int]) =~= lh.take(i + 1 as int));
        }
        acc = hashing::compute_node_hash(&acc, &leaf);
        i = i + 1;
    }
    let left_acc = acc.clone();

    // Copy the range and keep folding towards the root.
    let mut raw_values: Vec<(StateKey, StateValue)> = Vec::new();
    proof {
        assert(kvs_of(raw_values@) =~= all.subrange(start as int, start as int));
    }
    while i < end
        invariant
            start <= i <= end <= leaves@.len(),
            all == kvs_of(leaves@),
            lh == leaf_hashes(all),
            lh.len() == leaves@.len(),
            acc@ == chain_hashes(hashing::placeholder_spec(), lh.take(i as int)),
            kvs_of(raw_values@) == all.subrange(start as int, i as int),
        decreases end - i,
    {
        let pair = (leaves[i].0.clone(), leaves[i].1.clone());
        let ghost old_raw = kvs_of(raw_values@);
        proof {
            assert(crate::store::kv_of(pair) == all[i as int]);
        }
        raw_values.push(pair);
        proof {
            assert(kvs_of(raw_values@) =~= old_raw.push(all[i as int]));
            assert(old_raw.push(all[i as int]) =~= all.subrange(start as int, i + 1 as int));
        }
        let key_hash = leaves[i].0.hash();
        let value_hash = leaves[i].1.hash();
        let leaf = hashing::compute_leaf_hash(&key_hash, &value_hash);
        proof {
            assert(leaf@ == lh[i as int]);
            lemma_chain_snoc(hashing::placeholder_spec(), lh.take(i as int), lh[i as int]);
            assert(lh.take(i as int).push(lh[i as int]) =~= lh.take(i + 1 as int));
        }
        acc = hashing::compute_node_hash(&acc, &leaf);
        i = i + 1;
    }

    // The leaf digests after the range: the right siblings; keep folding.
    let mut right_siblings: Vec<HashValue> = Vec::new();
    proof {
        assert(hashes_of(right_siblings@) =~= lh.subrange(end as int, end as int));
    }
    while i < total
        invariant
            end <= i <= total == leaves@.len(),
            all == kvs_of(leaves@),
            lh == leaf_hashes(all),
            lh.len() == leaves@.len(),
            acc@ == chain_hashes(hashing::placeholder_spec(), lh.take(i as int)),
            hashes_of(right_siblings@) == lh.subrange(end as int, i as int),
        decreases total - i,
    {
        let key_hash = leaves[i].0.hash();
        let value_hash = leaves[i].1.hash();
        let leaf = hashing::compute_leaf_hash(&key_hash, &value_hash);
        let ghost old_right = hashes_of(right_siblings@);
        proof {
            assert(leaf@ == lh[i as int]);
        }
        right_siblings.push(leaf.clone());
        proof {
            assert(hashes_of(right_siblings@) =~= old_right.push(lh[i as int]));
            assert(old_right.push(lh[i as int]) =~= lh.subrange(end as int, i + 1 as int));
            lemma_chain_snoc(hashing::placeholder_spec(), lh.take(i as int), lh[i as int]);
            assert(lh.take(i as int).push(lh[i as int]) =~= lh.take(i + 1 as int));
        }
        acc = hashing::compute_node_hash(&acc, &leaf);
        i = i + 1;
    }
    proof {
        assert(lh.take(total as int) =~= lh);
    }
    let root_hash = acc;

    let first_key = leaves[start].0.hash();
    let last_key = leaves[end - 1].0.hash();
    let mut left_siblings: Vec<HashValue> = Vec::new();
    left_siblings.push(left_acc);
    let proof_part = SparseMerkleRangeProof::new(left_siblings, right_siblings);
    let chunk = StateValueChunkWithProof {
        first_index: start as u64,
        last_index: (end - 1) as u64,
        first_key,
        last_key,
        raw_values,
        proof: proof_part,
        root_hash,
    };
    proof {
        let left0 = chunk.proof.left_view()[0];
        assert(left0 == chain_hashes(hashing::placeholder_spec(), lh.take(start as int)));
        assert(chunk.proof.right_view() =~= lh.skip(end as int));
        assert(leaf_hashes(kvs_of(chunk.raw_values@)) =~= lh.subrange(start as int, end as int));
        // The whole fold splits at the range's two boundaries.
        assert(lh =~= lh.take(start as int) + lh.skip(start as int));
        lemma_chain_append(
            hashing::placeholder_spec(),
            lh.take(start as int),
            lh.skip(start as int),
        );
        assert(lh.skip(start as int) =~= lh.subrange(start as int, end as int) + lh.skip(
            end as int,
        ));
        lemma_chain_append(left0, lh.subrange(start as int, end as int), lh.skip(end as int));
        assert(chunk.verifies());
        if end as int == all.len() {
            assert(chunk.proof.right_view() =~= Seq::<Seq<u8>>::empty());
        }
    }
    Ok(chunk)
}

/// The concatenation of the slices the cut positions carve out of the
/// snapshot's leaves.
pub open spec fn concat_pieces(leaves: Seq<(Seq<u8>, Seq<u8>)>, cuts: Seq<int>) -> Seq<
    (Seq<u8>, Seq<u8>),
>
    decreases cuts.len(),
{
    if cuts.len() <= 1 {
        Seq::empty()
    } else {
        leaves.subrange(cuts[0], cuts[1]) + concat_pieces(leaves, cuts.drop_first())
    }
}

/// Law: chunks cut back to back from ordinal zero to the snapshot's end
/// concatenate to exactly the snapshot's leaves; together with the
/// snapshot's own exactness this covers every live key exactly once.
pub proof fn lemma_chunks_cover(leaves: Seq<(Seq<u8>, Seq<u8>)>, cuts: Seq<int>)
    requires
        cuts.len() >= 1,
        cuts[0] == 0,
        cuts.last() == leaves.len(),
        forall|t: int| 0 <= t < cuts.len() ==> 0 <= #[trigger] cuts[t] <= leaves.len(),
        forall|t1: int, t2: int|
            0 <= t1 <= t2 < cuts.len() ==> #[trigger] cuts[t1] <= #[trigger] cuts[t2],
    ensures
        concat_pieces(leaves, cuts) == leaves,
{
    lemma_concat_pieces_spans(leaves, cuts);
    assert(leaves.subrange(0, leaves.len() as int) =~= leaves);
}

/// The concatenated pieces span from the first cut to the last.
proof fn lemma_concat_pieces_spans(leaves: Seq<(Seq<u8>, Seq<u8>)>, cuts: Seq<int>)
    requires
        cuts.len() >= 1,
        forall|t: int| 0 <= t < cuts.len() ==> 0 <= #[trigger] cuts[t] <= leaves.len(),
        forall|t1: int, t2: int|
            0 <= t1 <= t2 < cuts.len() ==> #[trigger] cuts[t1] <= #[trigger] cuts[t2],
    ensures
        concat_pieces(leaves, cuts) == leaves.subrange(cuts[0], cuts.last()),
    decreases cuts.len(),
{
    if cuts.len() == 1 {
        assert(concat_pieces(leaves, cuts) == Seq::<(Seq<u8>, Seq<u8>)>::empty());
        assert(leaves.subrange(cuts[0], cuts.last()) =~= Seq::<(Seq<u8>, Seq<u8>)>::empty());
    } else {
        let rest = cuts.drop_first();
        assert(forall|t: int| 0 <= t < rest.len() ==> rest[t] == cuts[t + 1]);
        lemma_concat_pieces_spans(leaves, rest);
        assert(rest.last() == cuts.last());
        assert(cuts[0] <= cuts[1]);
        assert(cuts[1] <= cuts.last());
        assert(leaves.subrange(cuts[0], cuts[1]) + leaves.subrange(cuts[1], cuts.last())
            =~= leaves.subrange(cuts[0], cuts.last()));
    }
}

} // verus!
