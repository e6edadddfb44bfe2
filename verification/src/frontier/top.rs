//! The top tier of a tree: a frontier tier that stands on its own, with a
//! digest of its own for the state in which nothing was inserted yet.

use vstd::prelude::*;
use crate::complete;
use crate::complete::radices_at;
use crate::focus::{shape_ok, Focus, Subtree};
use crate::frontier::tier::{law_position_counts, Tier};
use crate::hash::{Commitment, Digest};
use crate::insert::Insert;
use crate::path::AuthPath;
use crate::tree::{
    capacity,
    law_forget_keeps_root,
    law_live_in_range,
    law_place_is_witnessed,
    law_place_keeps_items,
    law_witness_recombines,
    levels,
    recombine,
    span,
    Tree,
};

verus! {

/// The frontier of the top level of a tree. It may be empty, and is neither
/// sealed nor hashed until asked.
pub struct Top<Item: Focus, const A: usize, const D: usize> {
    pub inner: Tier<Item, A, D>,
}

impl<Item: Focus, const A: usize, const D: usize> Top<Item, A, D> {
    /// The tier is well formed.
    pub open spec fn wf(&self) -> bool {
        self.inner.wf()
    }

    /// The shape beneath the root.
    pub open spec fn radices() -> Seq<nat> {
        radices_at::<Item>(A as nat, D as nat)
    }

    /// The number of places for items.
    pub open spec fn places() -> nat {
        capacity(levels(A as nat, D as nat))
    }

    /// The number of items inserted so far.
    pub open spec fn len(&self) -> nat {
        self.inner.len()
    }

    /// The newest item, or its digest once it was forgotten; nothing in an
    /// empty tier.
    pub open spec fn newest(&self) -> Option<Insert<Item>> {
        self.inner.newest()
    }

    /// The position that the next item will take.
    pub open spec fn filled(&self) -> nat {
        self.inner.filled()
    }

    /// The root digest is at hand without hashing: in an empty tier, and in
    /// one of no levels whose item has its digest at hand.
    pub open spec fn cached(&self) -> bool {
        self.inner.cached()
    }

    /// The tree this stands for. An empty top tier has the digest one, where
    /// an empty subtree has zero.
    pub open spec fn tree(&self) -> Tree {
        if self.len() == 0 {
            Tree::Pruned(Digest::spec_one())
        } else {
            self.inner.tree()
        }
    }

    /// What one insertion that succeeds makes of a tier: one item more, the
    /// new item the newest, and the tree with the item in the next place.
    pub open spec fn grows_to(self, item: Item, after: Self) -> bool {
        &&& after.wf()
        &&& self.len() < Self::places()
        &&& after.len() == self.len() + 1
        &&& after.newest() == Some(Insert::Keep(item))
        &&& after.tree() == self.tree().place(levels(A as nat, D as nat), self.len(), item.tree())
    }

    /// A top tier without items.
    pub fn new() -> (top: Self)
        requires
            shape_ok(Self::radices()),
        ensures
            top.wf(),
            top.len() == 0,
    {
        Top { inner: Tier::new() }
    }

    /// A top tier without items, where the shape of the type is in order:
    /// every level has children and the positions fit in `u64`.
    pub fn try_new() -> (top: Option<Self>)
        ensures
            top is Some <==> shape_ok(Self::radices()),
            top matches Some(made) ==> made.wf() && made.len() == 0,
    {
        match Tier::try_new() {
            Some(inner) => Some(Top { inner }),
            None => None,
        }
    }

    /// Whether the tier is well formed: to be asked of a tier that did not
    /// come from this library's own operations. The digests of all sealed
    /// nodes are computed anew.
    pub fn validate(&self) -> (ok: bool)
        ensures
            ok == self.wf(),
    {
        self.inner.validate()
    }

    /// **Witnesses prove the root.** Where a well-formed tier has a witness
    /// for a position, the path spans the position, and hashing the item
    /// upward along the path gives the digest of the tier.
    pub proof fn law_witness_proves_root(&self, index: nat)
        requires
            self.wf(),
            self.tree().live(Self::radices(), index),
        ensures
            ({
                let (path, item) = self.tree().witness(Self::radices(), index)->0;
                &&& index < span(path)
                &&& recombine(path, index, Digest::of_leaf(item)) == self.tree().root()
            }),
    {
        self.inner.lemma_wf();
        law_witness_recombines(self.tree(), Self::radices(), index);
        law_live_in_range(self.tree(), Self::radices(), index);
    }

    /// Puts `item` in the next place. Where every place is taken, the tier
    /// stays as it is and the item comes back: a full tier is never sealed
    /// behind the caller's back.
    pub fn insert(&mut self, item: Item) -> (out: Result<(), Item>)
        requires
            old(self).wf(),
            item.wf(),
        ensures
            final(self).wf(),
            match out {
                Ok(_) => old(self).grows_to(item, *final(self)),
                Err(back) => {
                    &&& old(self).len() == Self::places()
                    &&& back == item
                    &&& *final(self) == *old(self)
                },
            },
    {
        proof {
            Tier::<Item, A, D>::lemma_places();
            if self.inner.inner is Some {
                self.inner.inner->0.lemma_len();
            }
        }
        self.inner.insert(item)
    }

    /// Lets `f` change the newest item in place and hands on what `f` returns.
    /// Does nothing in an empty tier, or where only the digest of the newest
    /// item is left.
    pub fn update<T, F: FnOnce(&mut Item) -> T>(&mut self, f: F) -> (out: Option<T>)
        requires
            old(self).wf(),
            old(self).newest() matches Some(Insert::Keep(item)) ==> {
                &&& forall|m: &mut Item| *m == item ==> call_requires(f, (m,))
                &&& forall|m: &mut Item, t: T|
                    *m == item && call_ensures(f, (m,), t) ==> final(m).wf()
            },
        ensures
            final(self).wf(),
            final(self).len() == old(self).len(),
            match old(self).newest() {
                Some(Insert::Keep(item)) => out is Some && (exists|m: &mut Item|
                    {
                        &&& *m == item
                        &&& #[trigger] call_ensures(f, (m,), out->0)
                        &&& final(self).newest() == Some(Insert::Keep(*final(m)))
                        &&& final(self).tree() == old(self).tree().place(
                            levels(A as nat, D as nat),
                            (old(self).len() - 1) as nat,
                            final(m).tree(),
                        )
                    }),
                _ => out is None && *final(self) == *old(self),
            },
    {
        proof {
            if self.inner.inner is Some {
                self.inner.inner->0.lemma_len();
            }
        }
        self.inner.update(f)
    }

    /// The newest item, where there is one and it is still kept.
    pub fn focus(&self) -> (found: Option<&Item>)
        ensures
            match self.newest() {
                Some(Insert::Keep(item)) => found == Some(&item),
                _ => found is None,
            },
    {
        self.inner.focus()
    }

    /// Seals the tier: the digest one where it is empty, else the complete
    /// tier that stands for the same tree.
    pub fn finalize(self) -> (done: Insert<complete::Top<Item::Complete, A, D>>)
        requires
            self.wf(),
        ensures
            self.len() == 0 ==> done == Insert::<complete::Top<Item::Complete, A, D>>::Hash(
                Digest::spec_one(),
            ),
            self.len() > 0 ==> (done matches Insert::Keep(sealed) && sealed.wf() && sealed.tree()
                == self.tree()),
            match done {
                Insert::Keep(sealed) => sealed.tree().root() == self.tree().root(),
                Insert::Hash(digest) => digest == self.tree().root(),
            },
    {
        proof {
            if self.inner.inner is Some {
                self.inner.inner->0.lemma_len();
            }
        }
        if self.inner.is_empty() {
            Insert::Hash(Digest::one())
        } else {
            match self.inner.finalize_owned() {
                Insert::Keep(inner) => Insert::Keep(complete::Top { inner }),
                Insert::Hash(digest) => Insert::Hash(digest),
            }
        }
    }

    /// Whether every place is taken.
    pub fn is_full(&self) -> (full: bool)
        requires
            self.wf(),
        ensures
            full == (self.len() == Self::places()),
    {
        self.inner.is_full()
    }

    /// Whether nothing was inserted yet.
    pub fn is_empty(&self) -> (empty: bool)
        requires
            self.wf(),
        ensures
            empty == (self.len() == 0),
    {
        self.inner.is_empty()
    }

    /// The position that the next item will take.
    pub fn position(&self) -> (next: Option<u64>)
        requires
            self.wf(),
        ensures
            next == Some(self.filled() as u64),
    {
        self.inner.position()
    }

    /// The root digest: one for an empty tier.
    pub fn hash(&self) -> (digest: Digest)
        requires
            self.wf(),
        ensures
            digest == self.tree().root(),
    {
        if self.inner.is_empty() {
            Digest::one()
        } else {
            self.inner.hash()
        }
    }

    /// The root digest, where it is at hand without hashing: for an empty
    /// tier, and for one of no levels whose item is at hand as a digest.
    pub fn cached_hash(&self) -> (cached: Option<Digest>)
        requires
            self.wf(),
        ensures
            self.cached() ==> cached == Some(self.tree().root()),
            !self.cached() ==> cached is None,
    {
        proof {
            if self.inner.inner is Some {
                self.inner.inner->0.lemma_len();
            }
        }
        if self.inner.is_empty() {
            Some(Digest::one())
        } else {
            self.inner.cached_hash()
        }
    }

    /// The authentication path and the item at `index`. There is none where
    /// `index` is out of range, or the item or a node above it was forgotten.
    pub fn witness(&self, index: u64) -> (found: Option<(AuthPath, Commitment)>)
        requires
            self.wf(),
        ensures
            match self.tree().witness(Self::radices(), index as nat) {
                Some((path, item)) => found matches Some(pair) && pair.0@ == path && pair.1 == item,
                None => found is None,
            },
    {
        proof {
            if self.inner.inner is Some {
                self.inner.inner->0.lemma_len();
            }
        }
        self.inner.witness(index)
    }

    /// Forgets the item at `index`, and says whether anything changed: nothing
    /// does where `index` is out of range or the item was forgotten before.
    /// No digest changes, and items can be inserted as before.
    pub fn forget(&mut self, index: u64) -> (changed: bool)
        requires
            old(self).wf(),
        ensures
            final(self).wf(),
            final(self).len() == old(self).len(),
            final(self).filled() == old(self).filled(),
            final(self).tree() == old(self).tree().forget(Self::radices(), index as nat),
            final(self).tree().root() == old(self).tree().root(),
            changed == old(self).tree().live(Self::radices(), index as nat),
    {
        proof {
            law_forget_keeps_root(self.tree(), Self::radices(), index as nat);
            if self.inner.inner is Some {
                self.inner.inner->0.lemma_len();
            }
        }
        self.inner.forget(index)
    }
}

/// **An inserted item can be witnessed, and disturbs no other.** After an
/// insertion into a top tier of commitments, the new item is the one at the
/// position that the tier had announced, and every other position that was
/// live holds the item it held before.
pub proof fn law_insert_is_witnessed<const A: usize, const D: usize>(
    before: Top<Commitment, A, D>,
    item: Commitment,
    after: Top<Commitment, A, D>,
)
    requires
        before.wf(),
        before.grows_to(item, after),
    ensures
        after.tree().item_at(Top::<Commitment, A, D>::radices(), before.filled()) == Some(item),
        forall|other: nat|
            other != before.filled() && #[trigger] before.tree().live(
                Top::<Commitment, A, D>::radices(),
                other,
            ) ==> after.tree().item_at(Top::<Commitment, A, D>::radices(), other)
                == before.tree().item_at(Top::<Commitment, A, D>::radices(), other),
{
    let radices = Top::<Commitment, A, D>::radices();
    assert(radices =~= levels(A as nat, D as nat));
    law_position_counts_items(before);
    if before.len() > 0 {
        before.inner.lemma_wf();
    }
    law_place_is_witnessed(before.tree(), radices, before.len(), item);
    assert forall|other: nat|
        other != before.filled() && #[trigger] before.tree().live(radices, other) implies after.tree().item_at(
        radices,
        other,
    ) == before.tree().item_at(radices, other) by {
        law_place_keeps_items(before.tree(), radices, before.len(), item, other);
    }
}

/// **Positions count items.** In a top tier of commitments, the position that
/// the next item will take is the number of items inserted so far.
pub proof fn law_position_counts_items<const A: usize, const D: usize>(top: Top<Commitment, A, D>)
    requires
        top.wf(),
    ensures
        top.filled() == top.len(),
{
    law_position_counts(top.inner);
}

/// **Positions count insertions.** Start from a new top tier of commitments
/// and insert one item after the other, every time with success. Then after
/// `n` insertions the position that the next item will take is `n`, and `n`
/// is no more than the number of places.
pub proof fn law_position_counts_insertions<const A: usize, const D: usize>(
    states: Seq<Top<Commitment, A, D>>,
    items: Seq<Commitment>,
    n: int,
)
    requires
        states.len() == items.len() + 1,
        states[0].wf(),
        states[0].len() == 0,
        forall|i: int|
            0 <= i < items.len() ==> (#[trigger] states[i]).grows_to(items[i], states[i + 1]),
        0 <= n <= items.len(),
    ensures
        states[n].wf(),
        states[n].filled() == n,
        n <= Top::<Commitment, A, D>::places(),
    decreases n,
{
    if n > 0 {
        law_position_counts_insertions(states, items, n - 1);
        assert(states[n - 1].grows_to(items[n - 1], states[n]));
    }
    law_position_counts_items(states[n]);
}

} // verus!
