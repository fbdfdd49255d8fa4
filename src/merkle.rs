//! Domain-separated hashing, Merkle trees, and the metadata commitment.

use vstd::prelude::*;
use vstd::string::StringSliceAdditionalSpecFns;

use crate::data::{FieldType, Value};
use crate::encoding::{encodable, encode_leaf, encode_leaf_bytes, push_bytes};
use crate::keyed::{distinct_keys, last_value_of, lemma_last_value_of_contains};
use crate::metadata::{flatten, has_key, lemma_lookup_absent, lookup, lemma_ascending_unique, Metadata, MetadataLeaf};

verus! {

/// The SHA-256 digest of a byte string.
pub uninterp spec fn sha256_of(data: Seq<u8>) -> Seq<u8>;

/// Relies on `bitcoin_hashes::sha256::hash`: the SHA-256 digest of the
/// bytes, 32 bytes long.
#[verifier::external_body]
fn sha256(data: &[u8]) -> (r: Vec<u8>)
    ensures
        r@ == sha256_of(data@),
        r@.len() == 32,
{
    bitcoin_hashes::sha256::hash(data).to_byte_array().to_vec()
}

/// Hash of `msg` under the domain `tag`: the tag's digest, twice, is
/// written before the message.
pub open spec fn tagged_hash(tag: Seq<u8>, msg: Seq<u8>) -> Seq<u8> {
    sha256_of(sha256_of(tag) + sha256_of(tag) + msg)
}

/// Hash of `msg` under the domain `tag`.
pub fn tagged_hash_bytes(tag: &[u8], msg: &[u8]) -> (r: Vec<u8>)
    ensures
        r@ == tagged_hash(tag@, msg@),
{
    let t = sha256(tag);
    let mut buf: Vec<u8> = Vec::new();
    push_bytes(&mut buf, t.as_slice());
    push_bytes(&mut buf, t.as_slice());
    push_bytes(&mut buf, msg);
    assert(buf@ =~= sha256_of(tag@) + sha256_of(tag@) + msg@);
    sha256(buf.as_slice())
}

/// Models of a sequence of byte strings.
pub open spec fn byte_strings(v: Seq<Vec<u8>>) -> Seq<Seq<u8>> {
    v.map_values(|b: Vec<u8>| b@)
}

/// Parent node of two adjacent nodes.
pub open spec fn parent(prefix: Seq<u8>, l: Seq<u8>, r: Seq<u8>) -> Seq<u8> {
    tagged_hash(prefix, l + r)
}

/// The level above `level`: adjacent nodes combined pairwise, an odd last
/// node combined with itself.
pub open spec fn next_level(prefix: Seq<u8>, level: Seq<Seq<u8>>) -> Seq<Seq<u8>> {
    Seq::new(
        ((level.len() + 1) / 2) as nat,
        |k: int|
            parent(
                prefix,
                level[2 * k],
                if 2 * k + 1 < level.len() {
                    level[2 * k + 1]
                } else {
                    level[2 * k]
                },
            ),
    )
}

/// The Merkle root of `level`: the tagged hash of nothing when it is empty,
/// its one node when it has one, else the root of the level above.
pub open spec fn merkle_root(prefix: Seq<u8>, level: Seq<Seq<u8>>) -> Seq<u8>
    decreases level.len(),
{
    if level.len() == 0 {
        tagged_hash(prefix, Seq::empty())
    } else if level.len() == 1 {
        level[0]
    } else {
        merkle_root(prefix, next_level(prefix, level))
    }
}

/// Computes the level above `level`.
fn merkle_step(prefix: &[u8], level: &Vec<Vec<u8>>) -> (r: Vec<Vec<u8>>)
    ensures
        byte_strings(r@) == next_level(prefix@, byte_strings(level@)),
        r@.len() == (level@.len() + 1) / 2,
{
    let ghost lv = byte_strings(level@);
    let n = level.len();
    let half = n / 2 + n % 2;
    let mut r: Vec<Vec<u8>> = Vec::new();
    let mut k: usize = 0;
    while k < half
        invariant
            lv == byte_strings(level@),
            n == level@.len(),
            half == (n + 1) / 2,
            k <= half,
            r@.len() == k,
            forall|j: int| 0 <= j < r@.len() ==> #[trigger] r@[j]@ == next_level(prefix@, lv)[j],
        decreases half - k,
    {
        let i = 2 * k;
        let mut buf: Vec<u8> = Vec::new();
        push_bytes(&mut buf, level[i].as_slice());
        if i + 1 < n {
            push_bytes(&mut buf, level[i + 1].as_slice());
        } else {
            push_bytes(&mut buf, level[i].as_slice());
        }
        let node = tagged_hash_bytes(prefix, buf.as_slice());
        r.push(node);
        k = k + 1;
    }
    assert(byte_strings(r@) =~= next_level(prefix@, lv));
    r
}

/// The Merkle root of the given leaf hashes under the domain `prefix`.
pub fn merklize(prefix: &[u8], leaves: Vec<Vec<u8>>) -> (r: Vec<u8>)
    ensures
        r@ == merkle_root(prefix@, byte_strings(leaves@)),
{
    let mut level = leaves;
    while level.len() > 1
        invariant
            merkle_root(prefix@, byte_strings(level@)) == merkle_root(prefix@, byte_strings(leaves@)),
        decreases level@.len(),
    {
        level = merkle_step(prefix, &level);
    }
    if level.len() == 0 {
        let empty: Vec<u8> = Vec::new();
        assert(empty@ =~= Seq::<u8>::empty());
        tagged_hash_bytes(prefix, empty.as_slice())
    } else {
        let mut root: Vec<u8> = Vec::new();
        push_bytes(&mut root, level[0].as_slice());
        assert(root@ =~= level[0]@);
        root
    }
}

/// Domain of metadata leaves and of the tree built over them.
pub const METADATA_PREFIX: &'static str = "urn:lnpbp:rgb:metadata";

/// Bytes of the metadata domain prefix.
pub open spec fn metadata_prefix() -> Seq<u8> {
    METADATA_PREFIX.spec_bytes()
}

/// Hash of one metadata leaf.
pub open spec fn leaf_hash(leaf: (FieldType, Value)) -> Seq<u8> {
    tagged_hash(metadata_prefix(), encode_leaf(leaf))
}

/// The commitment to a metadata container: the Merkle root over the hashes
/// of its leaves, in flattening order.
pub open spec fn metadata_commitment(m: Seq<(FieldType, Seq<Value>)>) -> Seq<u8> {
    merkle_root(metadata_prefix(), flatten(m).map_values(|l: (FieldType, Value)| leaf_hash(l)))
}

/// Hash of one metadata leaf.
pub fn hash_leaf(leaf: &MetadataLeaf) -> (r: Vec<u8>)
    requires
        encodable(leaf.1@),
    ensures
        r@ == leaf_hash(leaf@),
{
    let enc = encode_leaf_bytes(leaf);
    tagged_hash_bytes(METADATA_PREFIX.as_bytes(), enc.as_slice())
}

/// The Merkle root over the metadata leaf hashes given, in order.
pub fn merklize_leaf_hashes(hashes: Vec<Vec<u8>>) -> (r: Vec<u8>)
    ensures
        r@ == merkle_root(metadata_prefix(), byte_strings(hashes@)),
{
    merklize(METADATA_PREFIX.as_bytes(), hashes)
}

impl Metadata {
    /// Every disclosed value has an encoding.
    pub open spec fn encodable(&self) -> bool {
        forall|k: int| 0 <= k < flatten(self@).len() ==> #[trigger] encodable(flatten(self@)[k].1)
    }

    /// The commitment to this container.
    pub fn commit(&self) -> (r: Vec<u8>)
        requires
            self.encodable(),
        ensures
            r@ == metadata_commitment(self@),
    {
        let leaves = self.to_leaves();
        let ghost fl = flatten(self@);
        assert(leaves@.len() == fl.len());
        let mut hashes: Vec<Vec<u8>> = Vec::new();
        let mut i: usize = 0;
        while i < leaves.len()
            invariant
                i <= leaves@.len(),
                fl == flatten(self@),
                leaves@.map_values(|l: MetadataLeaf| l@) == fl,
                self.encodable(),
                hashes@.len() == i,
                forall|j: int| 0 <= j < i ==> #[trigger] hashes@[j]@ == leaf_hash(fl[j]),
            decreases leaves@.len() - i,
        {
            assert(leaves@[i as int]@ == fl[i as int]);
            assert(encodable(fl[i as int].1));
            let h = hash_leaf(&leaves[i]);
            hashes.push(h);
            i = i + 1;
        }
        assert(byte_strings(hashes@) =~= fl.map_values(|l: (FieldType, Value)| leaf_hash(l)));
        merklize_leaf_hashes(hashes)
    }
}

/// Commitment is a function of the container's contents: equal contents
/// commit to equal roots.
pub proof fn lemma_commit_deterministic(a: Metadata, b: Metadata)
    requires
        a@ == b@,
    ensures
        metadata_commitment(a@) == metadata_commitment(b@),
{
}

/// The commitment does not depend on the order in which fields were
/// inserted: well-formed containers that agree on which fields are present
/// and on each field's values commit to the same root.
pub proof fn lemma_commit_insertion_order(a: Metadata, b: Metadata)
    requires
        a.wf(),
        b.wf(),
        forall|g: FieldType| #[trigger] has_key(a@, g) <==> has_key(b@, g),
        forall|g: FieldType| #[trigger] a.get(g) == b.get(g),
    ensures
        metadata_commitment(a@) == metadata_commitment(b@),
{
    assert forall|g: FieldType| #[trigger] lookup(a@, g) == lookup(b@, g) by {
        assert(a.get(g) == b.get(g));
    }
    lemma_ascending_unique(a@, b@);
}

/// Containers built from the same (field type, values) pairs, with distinct
/// field types, inserted in any two orders commit to the same root.
pub proof fn lemma_commit_permuted_pairs(
    a: Metadata,
    b: Metadata,
    p: Seq<(FieldType, Seq<Value>)>,
    q: Seq<(FieldType, Seq<Value>)>,
)
    requires
        a.wf(),
        b.wf(),
        forall|g: FieldType| #[trigger] a.mapping(g) == last_value_of(p, g),
        forall|g: FieldType| #[trigger] b.mapping(g) == last_value_of(q, g),
        distinct_keys(p),
        distinct_keys(q),
        p.to_multiset() == q.to_multiset(),
    ensures
        metadata_commitment(a@) == metadata_commitment(b@),
{
    broadcast use vstd::seq_lib::group_to_multiset_ensures;
    assert forall|g: FieldType| #[trigger] last_value_of(p, g) == last_value_of(q, g) by {
        if let Some(v) = last_value_of(p, g) {
            lemma_last_value_of_contains(p, g, v);
            lemma_last_value_of_contains(q, g, v);
            assert(p.to_multiset().count((g, v)) > 0);
        }
        if let Some(v) = last_value_of(q, g) {
            lemma_last_value_of_contains(p, g, v);
            lemma_last_value_of_contains(q, g, v);
            assert(q.to_multiset().count((g, v)) > 0);
        }
    }
    assert forall|g: FieldType| #[trigger] has_key(a@, g) <==> has_key(b@, g) by {
        assert(a.mapping(g) == b.mapping(g));
    }
    assert forall|g: FieldType| #[trigger] a.get(g) == b.get(g) by {
        assert(a.mapping(g) == b.mapping(g));
        if !has_key(a@, g) {
            lemma_lookup_absent(a@, g);
            lemma_lookup_absent(b@, g);
        }
    }
    lemma_commit_insertion_order(a, b);
}

} // verus!
