//! Digests, commitments, and the two hashing operations the tree is built on.
//!
//! The compression function is SHA-256. A leaf is hashed under the domain tag
//! `0`, an internal node under the tag `1` followed by its children's digests
//! from left to right.

use vstd::prelude::*;

verus! {

/// Domain tag in front of a leaf's preimage.
pub const LEAF_TAG: u8 = 0;

/// Domain tag in front of an internal node's preimage.
pub const NODE_TAG: u8 = 1;

/// A fixed-size hash value.
#[derive(Clone, Copy, Debug, PartialEq, Eq, Hash)]
pub struct Digest {
    pub bytes: [u8; 32],
}

/// A raw item of the tree: thirty-two opaque bytes.
#[derive(Clone, Copy, Debug, PartialEq, Eq, Hash)]
pub struct Commitment {
    pub bytes: [u8; 32],
}

/// The SHA-256 digest of a byte string, as a function of the bytes alone.
pub uninterp spec fn sha256_of(data: Seq<u8>) -> Seq<u8>;

/// Calls `sha2::Sha256::digest` (the `Digest::digest` method of the `sha2`
/// crate) on `data`. Trusted: the thirty-two bytes returned are the SHA-256
/// digest of `data`, which depends on `data` only.
#[verifier::external_body]
pub(crate) fn sha256(data: &[u8]) -> (out: [u8; 32])
    ensures
        out@ == sha256_of(data@),
{
    <sha2::Sha256 as sha2::Digest>::digest(data).into()
}

/// The bytes of a sequence of digests, one after the other.
pub open spec fn concat(digests: Seq<Digest>) -> Seq<u8>
    decreases digests.len(),
{
    if digests.len() == 0 {
        Seq::empty()
    } else {
        concat(digests.drop_last()) + digests.last().bytes@
    }
}

/// What is hashed for a leaf holding `item`.
pub open spec fn leaf_preimage(item: Commitment) -> Seq<u8> {
    seq![LEAF_TAG] + item.bytes@
}

/// What is hashed for a node with the given children.
pub open spec fn node_preimage(children: Seq<Digest>) -> Seq<u8> {
    seq![NODE_TAG] + concat(children)
}

/// Thirty-two zero bytes.
fn zeros() -> (bytes: [u8; 32])
    ensures
        forall|i: int| 0 <= i < 32 ==> bytes@[i] == 0u8,
{
    let mut bytes: [u8; 32] = [0u8; 32];
    let mut i: usize = 0;
    while i < 32
        invariant
            i <= 32,
            forall|j: int| 0 <= j < i ==> bytes@[j] == 0u8,
        decreases 32 - i,
    {
        bytes[i] = 0;
        i = i + 1;
    }
    bytes
}

impl Digest {
    /// The digest whose bytes are `bytes`.
    pub closed spec fn with_bytes(bytes: Seq<u8>) -> Digest {
        choose|d: Digest| d.bytes@ == bytes
    }

    /// A digest is determined by its bytes.
    pub proof fn lemma_with_bytes(d: Digest)
        ensures
            Digest::with_bytes(d.bytes@) == d,
    {
        let e = Digest::with_bytes(d.bytes@);
        assert(e.bytes@ == d.bytes@);
        assert(e.bytes =~= d.bytes);
    }

    /// Bytes of the digest of an empty or absent subtree.
    pub open spec fn zero_bytes() -> Seq<u8> {
        Seq::new(32, |i: int| 0u8)
    }

    /// Bytes of the digest of an empty top-level container.
    pub open spec fn one_bytes() -> Seq<u8> {
        Seq::new(32, |i: int| if i == 0 { 1u8 } else { 0u8 })
    }

    /// The digest of an empty or absent subtree.
    pub open spec fn spec_zero() -> Digest {
        Digest::with_bytes(Digest::zero_bytes())
    }

    /// The digest of an empty top-level container.
    pub open spec fn spec_one() -> Digest {
        Digest::with_bytes(Digest::one_bytes())
    }

    /// The digest of a leaf holding `item`.
    pub open spec fn of_leaf(item: Commitment) -> Digest {
        Digest::with_bytes(sha256_of(leaf_preimage(item)))
    }

    /// The digest of a node over `children`, in order.
    pub open spec fn of_node(children: Seq<Digest>) -> Digest {
        Digest::with_bytes(sha256_of(node_preimage(children)))
    }

    /// Whether two digests are the same, byte for byte.
    pub fn same(&self, other: &Digest) -> (same: bool)
        ensures
            same == (*self == *other),
    {
        let mut i: usize = 0;
        while i < 32
            invariant
                i <= 32,
                forall|j: int| 0 <= j < i ==> self.bytes@[j] == other.bytes@[j],
            decreases 32 - i,
        {
            if self.bytes[i] != other.bytes[i] {
                return false;
            }
            i = i + 1;
        }
        assert(self.bytes =~= other.bytes);
        true
    }

    /// The digest of an empty or absent subtree: all bytes zero.
    pub fn zero() -> (d: Digest)
        ensures
            d == Digest::spec_zero(),
            d.bytes@ == Digest::zero_bytes(),
    {
        let bytes = zeros();
        let d = Digest { bytes };
        proof {
            assert(d.bytes@ =~= Digest::zero_bytes());
            Digest::lemma_with_bytes(d);
        }
        d
    }

    /// The digest of an empty top-level container: a one followed by zeros.
    pub fn one() -> (d: Digest)
        ensures
            d == Digest::spec_one(),
            d.bytes@ == Digest::one_bytes(),
    {
        let mut bytes = zeros();
        bytes[0] = 1;
        let d = Digest { bytes };
        proof {
            assert(d.bytes@ =~= Digest::one_bytes());
            Digest::lemma_with_bytes(d);
        }
        d
    }
}

/// Appends the bytes of `block` to `buf`.
fn append(buf: &mut Vec<u8>, block: &[u8; 32])
    ensures
        final(buf)@ == old(buf)@ + block@,
{
    let mut i: usize = 0;
    while i < 32
        invariant
            i <= 32,
            buf@ == old(buf)@ + block@.take(i as int),
        decreases 32 - i,
    {
        buf.push(block[i]);
        i = i + 1;
        assert(block@.take(i as int) =~= block@.take(i - 1).push(block@[i - 1]));
    }
    assert(block@.take(32) =~= block@);
}

/// Hashes a leaf.
pub fn hash_leaf(item: &Commitment) -> (d: Digest)
    ensures
        d == Digest::of_leaf(*item),
{
    let mut buf: Vec<u8> = Vec::new();
    buf.push(LEAF_TAG);
    assert(buf@ =~= seq![LEAF_TAG]);
    append(&mut buf, &item.bytes);
    let d = Digest { bytes: sha256(buf.as_slice()) };
    proof {
        Digest::lemma_with_bytes(d);
    }
    d
}

/// Hashes an internal node from the digests of its children, left to right.
pub fn hash_node(children: &Vec<Digest>) -> (d: Digest)
    ensures
        d == Digest::of_node(children@),
{
    let mut buf: Vec<u8> = Vec::new();
    buf.push(NODE_TAG);
    assert(buf@ =~= seq![NODE_TAG] + concat(children@.take(0)));
    let mut i: usize = 0;
    while i < children.len()
        invariant
            i <= children.len(),
            buf@ == seq![NODE_TAG] + concat(children@.take(i as int)),
        decreases children.len() - i,
    {
        append(&mut buf, &children[i].bytes);
        i = i + 1;
        assert(children@.take(i as int).drop_last() =~= children@.take(i - 1));
    }
    assert(children@.take(i as int) =~= children@);
    let d = Digest { bytes: sha256(buf.as_slice()) };
    proof {
        Digest::lemma_with_bytes(d);
    }
    d
}

} // verus!
