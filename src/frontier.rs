//! The note-commitment frontier: an append-only Merkle tree of depth 32 over the
//! Orchard node hash, of which only the path state needed to append and to compute
//! the root is held.
use vstd::prelude::*;
use incrementalmerkletree::frontier::Frontier;
use orchard::tree::MerkleHashOrchard;

verus! {

#[verifier::external_type_specification]
#[verifier::external_body]
#[verifier::reject_recursive_types(H)]
pub struct ExFrontier<H, const DEPTH: u8>(Frontier<H, DEPTH>);

#[verifier::external_type_specification]
#[verifier::external_body]
pub struct ExMerkleHashOrchard(MerkleHashOrchard);

/// Number of leaves a tree of depth 32 can hold.
pub open spec fn tree_capacity() -> nat {
    0x1_0000_0000
}

/// The leaves appended so far to a frontier, each as its 32-byte encoding.
pub uninterp spec fn frontier_leaves(f: Frontier<MerkleHashOrchard, 32>) -> Seq<Seq<u8>>;

/// Whether 32 bytes are the canonical encoding of an Orchard tree node.
pub uninterp spec fn is_node_encoding(b: Seq<u8>) -> bool;

/// The 32-byte encoding of an Orchard tree node.
pub uninterp spec fn node_encoding(h: MerkleHashOrchard) -> Seq<u8>;

/// The root of the depth-32 Orchard commitment tree whose leaves are `leaves`, in order,
/// padded with empty leaves.
pub uninterp spec fn commitment_root(leaves: Seq<Seq<u8>>) -> Seq<u8>;

/// Relies on `MerkleHashOrchard::from_bytes`: it succeeds exactly on canonical node
/// encodings, and `to_bytes` gives the same bytes back.
#[verifier::external_body]
fn node_from_bytes(b: &[u8; 32]) -> (r: Option<MerkleHashOrchard>)
    ensures
        r is Some <==> is_node_encoding(b@),
        r matches Some(h) ==> node_encoding(h) == b@,
{
    Option::from(MerkleHashOrchard::from_bytes(b))
}

/// Relies on `MerkleHashOrchard::to_bytes`: the node's 32-byte encoding.
#[verifier::external_body]
fn node_to_bytes(h: &MerkleHashOrchard) -> (r: [u8; 32])
    ensures
        r@ == node_encoding(*h),
{
    h.to_bytes()
}

/// Relies on `Frontier::empty`: a frontier with no leaves.
#[verifier::external_body]
fn frontier_empty() -> (r: Frontier<MerkleHashOrchard, 32>)
    ensures
        frontier_leaves(r) == Seq::<Seq<u8>>::empty(),
{
    Frontier::empty()
}

/// Relies on `Frontier::clone` (derived): the copy holds the same leaves.
#[verifier::external_body]
fn frontier_clone(f: &Frontier<MerkleHashOrchard, 32>) -> (r: Frontier<MerkleHashOrchard, 32>)
    ensures
        frontier_leaves(r) == frontier_leaves(*f),
{
    f.clone()
}

/// Relies on `Frontier::append`: the node is added as the next leaf unless the tree is
/// full, in which case the frontier is left as it was and `false` is returned.
#[verifier::external_body]
fn frontier_append(f: &mut Frontier<MerkleHashOrchard, 32>, h: MerkleHashOrchard) -> (r: bool)
    ensures
        r == (frontier_leaves(*old(f)).len() < tree_capacity()),
        r ==> frontier_leaves(*final(f)) == frontier_leaves(*old(f)).push(node_encoding(h)),
        !r ==> frontier_leaves(*final(f)) == frontier_leaves(*old(f)),
{
    f.append(h)
}

/// Relies on `Frontier::root`: the root of the depth-32 tree over the appended leaves,
/// a function of those leaves alone.
#[verifier::external_body]
fn frontier_root(f: &Frontier<MerkleHashOrchard, 32>) -> (r: MerkleHashOrchard)
    ensures
        node_encoding(r) == commitment_root(frontier_leaves(*f)),
{
    f.root()
}

/// Why a commitment could not be appended.
#[derive(PartialEq, Eq, Structural, Clone, Copy, Debug)]
pub enum AppendError {
    /// The bytes are not the canonical encoding of a tree node.
    NonCanonical,
    /// The tree already holds its full capacity of leaves.
    Full,
}

/// A note-commitment frontier; its view is the sequence of appended leaves.
pub struct CmxFrontier {
    tree: Frontier<MerkleHashOrchard, 32>,
}

impl View for CmxFrontier {
    type V = Seq<Seq<u8>>;

    closed spec fn view(&self) -> Seq<Seq<u8>> {
        frontier_leaves(self.tree)
    }
}

impl CmxFrontier {
    /// The frontier of the empty tree.
    pub fn empty() -> (r: Self)
        ensures
            r@ == Seq::<Seq<u8>>::empty(),
    {
        CmxFrontier { tree: frontier_empty() }
    }

    /// A frontier over the same leaves.
    pub fn duplicate(&self) -> (r: Self)
        ensures
            r@ == self@,
    {
        CmxFrontier { tree: frontier_clone(&self.tree) }
    }

    /// Appends the note commitment `cmx` as the next leaf.
    pub fn append(&mut self, cmx: &[u8; 32]) -> (r: Result<(), AppendError>)
        ensures
            r == (if !is_node_encoding(cmx@) {
                Err(AppendError::NonCanonical)
            } else if old(self)@.len() >= tree_capacity() {
                Err(AppendError::Full)
            } else {
                Ok(())
            }),
            r is Ok ==> final(self)@ == old(self)@.push(cmx@),
            r is Err ==> final(self)@ == old(self)@,
    {
        match node_from_bytes(cmx) {
            None => Err(AppendError::NonCanonical),
            Some(h) => {
                if frontier_append(&mut self.tree, h) {
                    Ok(())
                } else {
                    Err(AppendError::Full)
                }
            },
        }
    }

    /// The root of the tree over the leaves appended so far.
    pub fn root(&self) -> (r: [u8; 32])
        ensures
            r@ == commitment_root(self@),
    {
        let h = frontier_root(&self.tree);
        node_to_bytes(&h)
    }
}

} // verus!
