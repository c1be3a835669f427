//! A Merkle commitment to a list of scalars: SHA3-256 over the canonical
//! bytes of each scalar gives the leaves, and a binary hash tree over the
//! leaves gives the root.

use vstd::prelude::*;
use rs_merkle::Hasher;
use rs_merkle::MerkleTree;
use sha3::Digest;
use sha3::Sha3_256;
use crate::field::scalar_repr;
use crate::field::Scalar;
use crate::format::SerdeError;
use crate::format::SerdeFormat;
use crate::reader::put;

verus! {

/// The number of bytes of a digest.
pub const HASH_BYTES: usize = 32;

/// The SHA3-256 digest of `data`.
pub uninterp spec fn sha3_256(data: Seq<u8>) -> Seq<u8>;

/// The node above `left` and `right`: the digest of the two joined, or
/// `left` itself where it has no right neighbour.
pub open spec fn node_hash(left: Seq<u8>, right: Option<Seq<u8>>) -> Seq<u8> {
    match right {
        Some(r) => sha3_256(left + r),
        None => left,
    }
}

/// The level above `nodes`: neighbours are paired from the left and each
/// pair is hashed; a last node without a neighbour moves up unchanged.
pub open spec fn next_level(nodes: Seq<Seq<u8>>) -> Seq<Seq<u8>> {
    Seq::new(
        ((nodes.len() + 1) / 2) as nat,
        |i: int|
            node_hash(
                nodes[2 * i],
                if 2 * i + 1 < nodes.len() {
                    Some(nodes[2 * i + 1])
                } else {
                    None
                },
            ),
    )
}

/// The root of the tree over `nodes`: the one node that is left when
/// levels are built until a level has a single node.
pub open spec fn tree_root(nodes: Seq<Seq<u8>>) -> Seq<u8>
    recommends
        nodes.len() > 0,
    decreases nodes.len(),
{
    if nodes.len() <= 1 {
        nodes[0]
    } else {
        tree_root(next_level(nodes))
    }
}

/// The leaves for a list of scalars given by their internal forms: the
/// digest of the canonical bytes of each, in the order of the list.
pub open spec fn leaf_hashes(scalars: Seq<Seq<u8>>) -> Seq<Seq<u8>> {
    Seq::new(scalars.len(), |i: int| sha3_256(scalar_repr(scalars[i])))
}

/// The commitment to a list of scalars.
pub open spec fn merkle_root(scalars: Seq<Seq<u8>>) -> Seq<u8>
    recommends
        scalars.len() > 0,
{
    tree_root(leaf_hashes(scalars))
}

/// The bytes of each digest of a list.
pub open spec fn hashes_view(hashes: Seq<[u8; 32]>) -> Seq<Seq<u8>> {
    Seq::new(hashes.len(), |i: int| hashes[i]@)
}

/// The commitment to a single scalar is the digest of its canonical bytes:
/// no pairing step touches it.
pub proof fn lemma_single_leaf_root(scalar: Seq<u8>)
    ensures
        merkle_root(seq![scalar]) == sha3_256(scalar_repr(scalar)),
{
}

/// In a tree over three leaves the first two are hashed together and the
/// third moves up unchanged, to be hashed with their digest.
pub proof fn lemma_three_leaf_root(a: Seq<u8>, b: Seq<u8>, c: Seq<u8>)
    ensures
        tree_root(seq![a, b, c]) == sha3_256(sha3_256(a + b) + c),
{
    let level = next_level(seq![a, b, c]);
    assert(level =~= seq![sha3_256(a + b), c]);
    assert(next_level(level) =~= seq![sha3_256(sha3_256(a + b) + c)]);
    reveal_with_fuel(tree_root, 3);
}

/// Whether every digest has 32 bytes.
pub open spec fn digests_are_32() -> bool {
    forall|data: Seq<u8>| (#[trigger] sha3_256(data)).len() == 32
}

/// Whether every node of a level has 32 bytes.
pub open spec fn nodes_are_32(nodes: Seq<Seq<u8>>) -> bool {
    forall|i: int| 0 <= i < nodes.len() ==> (#[trigger] nodes[i]).len() == 32
}

/// The two neighbours of a level that are hashed into node `i` of the next, joined.
pub open spec fn pair_at(nodes: Seq<Seq<u8>>, i: int) -> Seq<u8> {
    nodes[2 * i] + nodes[2 * i + 1]
}

/// Whether the trees over `a` and `b` meet no collision of the hash: at
/// every level, two pairs at the same place that have the same digest are
/// the same pair.
pub open spec fn no_collision(a: Seq<Seq<u8>>, b: Seq<Seq<u8>>) -> bool
    recommends
        a.len() == b.len(),
    decreases a.len(),
{
    &&& forall|i: int|
        0 <= i && 2 * i + 1 < a.len() && sha3_256(#[trigger] pair_at(a, i)) == sha3_256(
            pair_at(b, i),
        ) ==> pair_at(a, i) == pair_at(b, i)
    &&& (a.len() >= 2 ==> no_collision(next_level(a), next_level(b)))
}

/// Whether no two scalars at the same place of `x` and `y` have different
/// canonical bytes with the same digest.
pub open spec fn no_leaf_collision(x: Seq<Seq<u8>>, y: Seq<Seq<u8>>) -> bool {
    forall|i: int|
        0 <= i < x.len() && sha3_256(#[trigger] scalar_repr(x[i])) == sha3_256(scalar_repr(y[i]))
            ==> scalar_repr(x[i]) == scalar_repr(y[i])
}

/// The list `x` with the scalars at `i` and `j` exchanged.
pub open spec fn swapped(x: Seq<Seq<u8>>, i: int, j: int) -> Seq<Seq<u8>> {
    x.update(i, x[j]).update(j, x[i])
}

/// Two lists of as many leaves with the same root are the same list,
/// unless building the two trees meets a collision of the hash.
pub proof fn lemma_equal_roots_have_equal_leaves(a: Seq<Seq<u8>>, b: Seq<Seq<u8>>)
    requires
        a.len() == b.len(),
        a.len() > 0,
        digests_are_32(),
        nodes_are_32(a),
        nodes_are_32(b),
        no_collision(a, b),
        tree_root(a) == tree_root(b),
    ensures
        a == b,
    decreases a.len(),
{
    if a.len() == 1 {
        assert(a =~= b);
    } else {
        let above_a = next_level(a);
        let above_b = next_level(b);
        assert forall|i: int| 0 <= i < above_a.len() implies (#[trigger] above_a[i]).len() == 32 by {
            if 2 * i + 1 < a.len() {
                assert(above_a[i] == sha3_256(pair_at(a, i)));
            } else {
                assert(above_a[i] == a[2 * i]);
            }
        }
        assert forall|i: int| 0 <= i < above_b.len() implies (#[trigger] above_b[i]).len() == 32 by {
            if 2 * i + 1 < b.len() {
                assert(above_b[i] == sha3_256(pair_at(b, i)));
            } else {
                assert(above_b[i] == b[2 * i]);
            }
        }
        lemma_equal_roots_have_equal_leaves(above_a, above_b);
        assert forall|k: int| 0 <= k < a.len() implies a[k] == b[k] by {
            let i = k / 2;
            if 2 * i + 1 < a.len() {
                let pa = pair_at(a, i);
                let pb = pair_at(b, i);
                assert(above_a[i] == sha3_256(pa));
                assert(above_b[i] == sha3_256(pb));
                assert(pa == pb);
                assert(a[2 * i] =~= pa.subrange(0, 32));
                assert(b[2 * i] =~= pb.subrange(0, 32));
                assert(a[2 * i + 1] =~= pa.subrange(32, 64));
                assert(b[2 * i + 1] =~= pb.subrange(32, 64));
            } else {
                assert(above_a[i] == a[2 * i]);
                assert(above_b[i] == b[2 * i]);
            }
        }
        assert(a =~= b);
    }
}

/// Changing a scalar changes the root: two lists of as many scalars that
/// differ in the canonical bytes of the scalar at some place have different
/// roots, unless hashing them meets a collision.
pub proof fn lemma_changed_scalar_changes_root(x: Seq<Seq<u8>>, y: Seq<Seq<u8>>, k: int)
    requires
        x.len() == y.len(),
        0 <= k < x.len(),
        scalar_repr(x[k]) != scalar_repr(y[k]),
        digests_are_32(),
        no_leaf_collision(x, y),
        no_collision(leaf_hashes(x), leaf_hashes(y)),
    ensures
        merkle_root(x) != merkle_root(y),
{
    if merkle_root(x) == merkle_root(y) {
        lemma_equal_roots_have_equal_leaves(leaf_hashes(x), leaf_hashes(y));
        assert(leaf_hashes(x)[k] == leaf_hashes(y)[k]);
        assert(sha3_256(scalar_repr(x[k])) == sha3_256(scalar_repr(y[k])));
    }
}

/// The root depends on the order: exchanging two scalars with different
/// canonical bytes changes it, unless hashing the two lists meets a collision.
pub proof fn lemma_swapped_scalars_change_root(x: Seq<Seq<u8>>, i: int, j: int)
    requires
        0 <= i < x.len(),
        0 <= j < x.len(),
        scalar_repr(x[i]) != scalar_repr(x[j]),
        digests_are_32(),
        no_leaf_collision(x, swapped(x, i, j)),
        no_collision(leaf_hashes(x), leaf_hashes(swapped(x, i, j))),
    ensures
        merkle_root(x) != merkle_root(swapped(x, i, j)),
{
    lemma_changed_scalar_changes_root(x, swapped(x, i, j), i);
}

/// `Digest::digest` of `sha3::Sha3_256`. The result is named `sha3_256`.
#[verifier::external_body]
fn sha3_digest(data: &[u8]) -> (digest: [u8; 32])
    ensures
        digest@ == sha3_256(data@),
{
    Sha3_256::digest(data).into()
}

/// SHA3-256 as the hash of a Merkle tree whose odd nodes move up unchanged.
#[derive(Debug, Clone, Copy)]
pub struct Sha256Hasher;

impl Hasher for Sha256Hasher {
    type Hash = [u8; 32];

    /// The SHA3-256 digest of `data`.
    fn hash(data: &[u8]) -> (digest: [u8; 32])
        ensures
            digest@ == sha3_256(data@),
    {
        sha3_digest(data)
    }

    /// The node above `left` and `right`.
    fn concat_and_hash(left: &[u8; 32], right: Option<&[u8; 32]>) -> (node: [u8; 32])
        ensures
            node@ == node_hash(
                left@,
                match right {
                    Some(r) => Some(r@),
                    None => None,
                },
            ),
    {
        match right {
            Some(right_node) => {
                let mut concatenated: Vec<u8> = Vec::new();
                put(&mut concatenated, left.as_slice());
                put(&mut concatenated, right_node.as_slice());
                assert(concatenated@ =~= left@ + right_node@);
                sha3_digest(concatenated.as_slice())
            },
            None => *left,
        }
    }

    /// The number of bytes of a digest.
    fn hash_size() -> (n: usize)
        ensures
            n == 32,
    {
        HASH_BYTES
    }
}

/// `MerkleTree::from_leaves` and `MerkleTree::root` of `rs_merkle`, over
/// `Sha256Hasher`. The tree pairs neighbours level by level with
/// `concat_and_hash`, which hashes a pair and hands a node without a right
/// neighbour up unchanged; its root is the single node of the top level,
/// and there is none where there are no leaves.
#[verifier::external_body]
fn root_of_leaves(leaves: &Vec<[u8; 32]>) -> (root: Option<[u8; 32]>)
    ensures
        match root {
            Some(r) => leaves@.len() > 0 && r@ == tree_root(hashes_view(leaves@)),
            None => leaves@.len() == 0,
        },
{
    MerkleTree::<Sha256Hasher>::from_leaves(leaves).root()
}

/// The leaf for one scalar: the digest of its canonical bytes.
pub fn leaf_hash(scalar: &Scalar) -> (leaf: [u8; 32])
    ensures
        leaf@ == sha3_256(scalar_repr(scalar@)),
{
    let repr = scalar.encode(SerdeFormat::Processed);
    sha3_digest(repr.as_slice())
}

/// Computes the Merkle root of a list of scalars: each scalar's canonical
/// bytes are hashed into a leaf, in the order of the list, and the root
/// of the tree over the leaves is returned. The result depends on nothing
/// but the scalars and their order. An empty list has no root and is
/// reported as `EmptyInput`.
pub fn merkle_hash(data: Vec<Scalar>) -> (r: Result<[u8; 32], SerdeError>)
    ensures
        match r {
            Ok(root) => data@.len() > 0 && root@ == merkle_root(data.deep_view()),
            Err(e) => e == SerdeError::EmptyInput && data@.len() == 0,
        },
{
    let mut leaves: Vec<[u8; 32]> = Vec::new();
    let mut i: usize = 0;
    while i < data.len()
        invariant
            i <= data@.len(),
            leaves@.len() == i,
            forall|j: int|
                0 <= j < i ==> (#[trigger] leaves@[j])@ == sha3_256(scalar_repr(data@[j]@)),
        decreases data@.len() - i,
    {
        let leaf = leaf_hash(&data[i]);
        leaves.push(leaf);
        i = i + 1;
    }
    assert(hashes_view(leaves@) =~= leaf_hashes(data.deep_view()));
    root_or_empty(root_of_leaves(&leaves))
}

/// The root that a tree gave, or `EmptyInput` where it had none to give.
pub fn root_or_empty(root: Option<[u8; 32]>) -> (r: Result<[u8; 32], SerdeError>)
    ensures
        r == match root {
            Some(found) => Ok::<[u8; 32], SerdeError>(found),
            None => Err::<[u8; 32], SerdeError>(SerdeError::EmptyInput),
        },
{
    match root {
        Some(found) => Ok(found),
        None => Err(SerdeError::EmptyInput),
    }
}

} // verus!
