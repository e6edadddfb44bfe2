//! What a tier asks of its items, and the simplest item: a commitment.

use vstd::prelude::*;
use crate::hash::{hash_leaf, Commitment, Digest};
use crate::insert::Insert;
use crate::path::AuthPath;
use crate::tree::{capacity, positive, Tree};

verus! {

/// A shape whose every level has children and whose positions fit in `u64`.
pub open spec fn shape_ok(radices: Seq<nat>) -> bool {
    positive(radices) && capacity(radices) <= u64::MAX
}

/// Anything that takes a place in a tier and answers for the positions
/// beneath it: a commitment, or a tier of such things.
pub trait Subtree: Sized {
    /// The value is well formed.
    spec fn wf(&self) -> bool;

    /// The number of children per node at each level beneath a value of this
    /// type, from its root down.
    spec fn radices() -> Seq<nat>;

    /// The tree this stands for.
    spec fn tree(&self) -> Tree;

    /// The position, beneath this value, that the next item would take; the
    /// capacity where nothing more can be added.
    spec fn filled(&self) -> nat;

    /// The root digest is at hand without hashing.
    spec fn cached(&self) -> bool;

    /// A well-formed value has its type's shape, and is filled to no more than
    /// its capacity.
    proof fn lemma_wf(&self)
        requires
            self.wf(),
        ensures
            shape_ok(Self::radices()),
            self.tree().fits(Self::radices()),
            self.filled() <= capacity(Self::radices()),
    ;

    /// Whether the value is well formed: to be asked of a value that did not
    /// come from this library's own operations.
    fn validate(&self) -> (ok: bool)
        ensures
            ok == self.wf(),
    ;

    /// The number of positions beneath a value of this type.
    fn capacity() -> (n: u64)
        requires
            shape_ok(Self::radices()),
        ensures
            n == capacity(Self::radices()),
    ;

    /// The number of positions beneath a value of this type, where the
    /// type's shape is in order; nothing where a level has no children or the
    /// positions do not fit in `u64`.
    fn checked_capacity() -> (n: Option<u64>)
        ensures
            n is Some <==> shape_ok(Self::radices()),
            n matches Some(positions) ==> positions == capacity(Self::radices()),
    ;

    /// The root digest.
    fn hash(&self) -> (digest: Digest)
        requires
            self.wf(),
        ensures
            digest == self.tree().root(),
    ;

    /// The root digest, where it is at hand without hashing.
    fn cached_hash(&self) -> (cached: Option<Digest>)
        requires
            self.wf(),
        ensures
            self.cached() ==> cached == Some(self.tree().root()),
            !self.cached() ==> cached is None,
    ;

    /// The authentication path and the item at `index`, where the item and
    /// all above it are present.
    fn witness(&self, index: u64) -> (found: Option<(AuthPath, Commitment)>)
        requires
            self.wf(),
        ensures
            match self.tree().witness(Self::radices(), index as nat) {
                Some((path, item)) => found matches Some(pair) && pair.0@ == path && pair.1 == item,
                None => found is None,
            },
    ;

    /// Forgets the item at `index`, and says whether anything changed.
    fn forget_owned(self, index: u64) -> (out: (Insert<Self>, bool))
        requires
            self.wf(),
        ensures
            out.1 == self.tree().live(Self::radices(), index as nat),
            match out.0 {
                Insert::Keep(after) => {
                    &&& after.wf()
                    &&& after.tree() == self.tree().forget(Self::radices(), index as nat)
                    &&& after.filled() == self.filled()
                },
                Insert::Hash(digest) => {
                    &&& Tree::Pruned(digest) == self.tree().forget(Self::radices(), index as nat)
                    &&& self.filled() == capacity(Self::radices())
                },
            },
    ;
}

/// Something that a frontier tier can hold as its newest item: it may still
/// grow, and is sealed once the tier moves on.
pub trait Focus: Subtree {
    /// What this becomes once nothing more can be added to it.
    type Complete: Subtree;

    /// Completion keeps the shape.
    proof fn lemma_complete()
        ensures
            <Self::Complete as Subtree>::radices() == Self::radices(),
    ;

    /// The position that the next item will take.
    fn position(&self) -> (next: Option<u64>)
        requires
            self.wf(),
        ensures
            next == Some(self.filled() as u64),
    ;

    /// Seals the value. The tree it stands for stays the same.
    fn finalize_owned(self) -> (done: Insert<Self::Complete>)
        requires
            self.wf(),
        ensures
            done.wf(),
            done.tree() == self.tree(),
    ;
}

impl Subtree for Commitment {
    open spec fn wf(&self) -> bool {
        true
    }

    open spec fn radices() -> Seq<nat> {
        Seq::empty()
    }

    open spec fn tree(&self) -> Tree {
        Tree::Leaf(*self)
    }

    open spec fn filled(&self) -> nat {
        1
    }

    open spec fn cached(&self) -> bool {
        false
    }

    proof fn lemma_wf(&self) {
    }

    fn validate(&self) -> (ok: bool) {
        true
    }

    fn capacity() -> (n: u64) {
        1
    }

    fn checked_capacity() -> (n: Option<u64>) {
        Some(1)
    }

    fn hash(&self) -> (digest: Digest) {
        hash_leaf(self)
    }

    fn cached_hash(&self) -> (cached: Option<Digest>) {
        None
    }

    fn witness(&self, index: u64) -> (found: Option<(AuthPath, Commitment)>) {
        if index == 0 {
            Some((AuthPath::new(), *self))
        } else {
            None
        }
    }

    fn forget_owned(self, index: u64) -> (out: (Insert<Commitment>, bool)) {
        if index == 0 {
            (Insert::Hash(hash_leaf(&self)), true)
        } else {
            (Insert::Keep(self), false)
        }
    }
}

impl Focus for Commitment {
    type Complete = Commitment;

    proof fn lemma_complete() {
    }

    fn position(&self) -> (next: Option<u64>) {
        Some(1)
    }

    fn finalize_owned(self) -> (done: Insert<Commitment>) {
        Insert::Keep(self)
    }
}

} // verus!
