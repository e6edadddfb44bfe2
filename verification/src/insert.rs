//! A place in the tree that holds either its content or only the content's
//! digest.

use vstd::prelude::*;
use crate::focus::Subtree;
use crate::hash::{Commitment, Digest};
use crate::path::AuthPath;
use crate::tree::{capacity, Tree};

verus! {

/// Either something kept, or the digest that stands for it once it was
/// forgotten. What was forgotten never comes back.
#[derive(Debug)]
pub enum Insert<T> {
    Keep(T),
    Hash(Digest),
}

impl<T: Subtree> Insert<T> {
    /// What is kept is well formed.
    pub open spec fn wf(&self) -> bool {
        match self {
            Insert::Keep(kept) => kept.wf(),
            Insert::Hash(_) => true,
        }
    }

    /// The tree this stands for.
    pub open spec fn tree(&self) -> Tree {
        match self {
            Insert::Keep(kept) => kept.tree(),
            Insert::Hash(digest) => Tree::Pruned(*digest),
        }
    }

    /// Whether what is kept is well formed.
    pub fn validate(&self) -> (ok: bool)
        ensures
            ok == self.wf(),
    {
        match self {
            Insert::Keep(kept) => kept.validate(),
            Insert::Hash(_) => true,
        }
    }

    /// Whether the content is present.
    pub fn is_keep(&self) -> (kept: bool)
        ensures
            kept == (self is Keep),
    {
        match self {
            Insert::Keep(_) => true,
            Insert::Hash(_) => false,
        }
    }

    /// The digest: the stored one, or that of what is kept.
    pub fn hash(&self) -> (digest: Digest)
        requires
            self.wf(),
        ensures
            digest == self.tree().root(),
    {
        match self {
            Insert::Keep(kept) => kept.hash(),
            Insert::Hash(digest) => *digest,
        }
    }

    /// Replaces what is kept by its digest. Says whether anything changed.
    pub fn forget(&mut self) -> (changed: bool)
        requires
            old(self).wf(),
        ensures
            *final(self) == Insert::<T>::Hash(old(self).tree().root()),
            changed == (*old(self) is Keep),
    {
        let digest = self.hash();
        let changed = self.is_keep();
        *self = Insert::Hash(digest);
        changed
    }

    /// The authentication path and the item at `index`, where they are present.
    pub fn witness(&self, index: u64) -> (found: Option<(AuthPath, Commitment)>)
        requires
            self.wf(),
        ensures
            match self.tree().witness(T::radices(), index as nat) {
                Some((path, item)) => found matches Some(pair) && pair.0@ == path && pair.1 == item,
                None => found is None,
            },
    {
        match self {
            Insert::Keep(kept) => kept.witness(index),
            Insert::Hash(_) => None,
        }
    }

    /// Forgets the item at `index`. Says whether anything changed.
    pub fn forget_at(self, index: u64) -> (out: (Insert<T>, bool))
        requires
            self.wf(),
        ensures
            out.0.wf(),
            out.0.tree() == self.tree().forget(T::radices(), index as nat),
            out.1 == self.tree().live(T::radices(), index as nat),
            self is Hash ==> out.0 == self,
            self matches Insert::Keep(before) ==> {
                &&& out.0 matches Insert::Keep(after) ==> after.filled() == before.filled()
                &&& out.0 is Hash ==> before.filled() == capacity(T::radices())
            },
    {
        match self {
            Insert::Keep(kept) => kept.forget_owned(index),
            Insert::Hash(digest) => (Insert::Hash(digest), false),
        }
    }
}

} // verus!
