//! A frontier tier: `D` levels of nodes with `A` children each, filled from
//! the left, whose newest item may still change.

use vstd::prelude::*;
use crate::complete;
use crate::complete::{lemma_descend, radices_at, tier_capacity, tier_checked_capacity};
use crate::focus::{shape_ok, Focus, Subtree};
use crate::frontier::spine::{occupied, Spine};
use crate::hash::{Commitment, Digest};
use crate::insert::Insert;
use crate::path::AuthPath;
use crate::tree::{
    capacity,
    law_forget_keeps_root,
    lemma_capacity_concat,
    lemma_levels_fewer,
    lemma_slots,
    levels,
    Tree,
};

verus! {

/// A frontier tier over items of type `Item`. It starts empty, takes items
/// until its `A` to the power of `D` places are used up, and is never sealed
/// unless asked.
pub struct Tier<Item: Focus, const A: usize, const D: usize> {
    pub inner: Option<Spine<Item, A>>,
}

impl<Item: Focus, const A: usize, const D: usize> Tier<Item, A, D> {
    /// The number of places for items.
    pub open spec fn places() -> nat {
        capacity(levels(A as nat, D as nat))
    }

    /// The number of items inserted so far.
    pub open spec fn len(&self) -> nat {
        match self.inner {
            Some(spine) => spine.len(),
            None => 0,
        }
    }

    /// The newest item, or its digest once it was forgotten; nothing in an
    /// empty tier.
    pub open spec fn newest(&self) -> Option<Insert<Item>> {
        match self.inner {
            Some(spine) => Some(spine.tip()),
            None => None,
        }
    }

    /// In a tier whose shape is in order there is at least one place, every
    /// place covers at least one position, and together the places cover the
    /// capacity of the tier.
    pub proof fn lemma_places()
        requires
            shape_ok(Self::radices()),
        ensures
            D > 0 ==> A >= 1,
            Self::places() >= 1,
            capacity(Item::radices()) >= 1,
            shape_ok(Item::radices()),
            Self::places() * capacity(Item::radices()) == capacity(Self::radices()),
    {
        lemma_levels_fewer(A as nat, 0, D as nat, Item::radices());
        assert(levels(A as nat, 0) + Item::radices() =~= Item::radices());
        lemma_capacity_concat(levels(A as nat, D as nat), Item::radices());
        if D > 0 {
            lemma_descend::<Item>(A as nat, D as nat);
            lemma_slots(A as nat, D as nat);
        } else {
            assert(levels(A as nat, 0) =~= Seq::<nat>::empty());
        }
    }

    /// An empty tier.
    pub fn new() -> (tier: Self)
        requires
            shape_ok(Self::radices()),
        ensures
            tier.wf(),
            tier.inner is None,
    {
        Tier { inner: None }
    }

    /// An empty tier, where the shape of the type is in order: every level
    /// has children and the positions fit in `u64`.
    pub fn try_new() -> (tier: Option<Self>)
        ensures
            tier is Some <==> shape_ok(Self::radices()),
            tier matches Some(made) ==> made.wf() && made.inner is None,
    {
        match tier_checked_capacity::<Item>(A, D) {
            Some(_) => Some(Tier { inner: None }),
            None => None,
        }
    }

    /// Whether nothing was inserted yet.
    pub fn is_empty(&self) -> (empty: bool)
        ensures
            empty == (self.inner is None),
            self.wf() ==> empty == (self.len() == 0),
    {
        proof {
            if self.wf() && self.inner is Some {
                self.inner->0.lemma_len();
            }
        }
        self.inner.is_none()
    }

    /// Whether every place is taken.
    pub fn is_full(&self) -> (full: bool)
        requires
            self.wf(),
        ensures
            full == (self.len() == Self::places()),
    {
        proof {
            Self::lemma_places();
        }
        match &self.inner {
            Some(spine) => {
                proof {
                    spine.lemma_len();
                }
                spine.is_full()
            },
            None => false,
        }
    }

    /// Puts `item` in the next place. Where every place is taken, the tier
    /// stays as it is and the item comes back.
    pub fn insert(&mut self, item: Item) -> (out: Result<(), Item>)
        requires
            old(self).wf(),
            item.wf(),
        ensures
            final(self).wf(),
            match out {
                Ok(_) => {
                    &&& old(self).len() < Self::places()
                    &&& final(self).len() == old(self).len() + 1
                    &&& final(self).newest() == Some(Insert::Keep(item))
                    &&& final(self).tree() == old(self).tree().place(
                        levels(A as nat, D as nat),
                        old(self).len(),
                        item.tree(),
                    )
                },
                Err(back) => {
                    &&& old(self).len() == Self::places()
                    &&& back == item
                    &&& *final(self) == *old(self)
                },
            },
    {
        proof {
            Self::lemma_places();
        }
        let inner = self.inner.take();
        let (out, inner) = match inner {
            Some(spine) => {
                proof {
                    spine.lemma_len();
                }
                if spine.is_full() {
                    (Err(item), spine)
                } else {
                    (Ok(()), spine.insert_owned(item, D))
                }
            },
            None => (Ok(()), Spine::fresh(item, D)),
        };
        self.inner = Some(inner);
        out
    }

    /// The newest item, where there is one and it is still kept.
    pub fn focus(&self) -> (found: Option<&Item>)
        ensures
            match self.newest() {
                Some(Insert::Keep(item)) => found == Some(&item),
                _ => found is None,
            },
    {
        match &self.inner {
            Some(spine) => spine.focus(),
            None => None,
        }
    }

    /// Lets `f` change the newest item in place and hands on what `f` returns.
    /// Does nothing in an empty tier, or where only the digest of the newest
    /// item is left.
    pub fn update<T, F: FnOnce(&mut Item) -> T>(&mut self, f: F) -> (out: Option<T>)
        requires
            old(self).wf(),
            old(self).newest() matches Some(Insert::Keep(item)) ==> {
                &&& forall|m: &mut Item| *m == item ==> call_requires(f, (m,))
                &&& forall|m: &mut Item, t: T|
                    *m == item && call_ensures(f, (m,), t) ==> final(m).wf()
            },
        ensures
            final(self).wf(),
            final(self).len() == old(self).len(),
            match old(self).newest() {
                Some(Insert::Keep(item)) => out is Some && (exists|m: &mut Item|
                    {
                        &&& *m == item
                        &&& #[trigger] call_ensures(f, (m,), out->0)
                        &&& final(self).newest() == Some(Insert::Keep(*final(m)))
                        &&& final(self).tree() == old(self).tree().place(
                            levels(A as nat, D as nat),
                            (old(self).len() - 1) as nat,
                            final(m).tree(),
                        )
                    }),
                _ => out is None && *final(self) == *old(self),
            },
    {
        match &mut self.inner {
            Some(spine) => {
                let ghost before = *spine;
                let out = spine.update(f);
                proof {
                    if let Insert::Keep(item) = before.tip() {
                        let m = choose|m: &mut Item|
                            *m == item && #[trigger] call_ensures(f, (m,), out->0) && *spine
                                == before.with_tip(Insert::Keep(*final(m)));
                        before.lemma_with_tip(Insert::Keep(*final(m)));
                    }
                }
                out
            },
            None => None,
        }
    }

    /// Forgets the item at `index` in place, and says whether anything
    /// changed: nothing does where `index` is out of range or the item was
    /// forgotten before. No digest changes, and items can be inserted as
    /// before.
    pub fn forget(&mut self, index: u64) -> (changed: bool)
        requires
            old(self).wf(),
        ensures
            final(self).wf(),
            final(self).len() == old(self).len(),
            final(self).filled() == old(self).filled(),
            final(self).tree() == old(self).tree().forget(Self::radices(), index as nat),
            final(self).tree().root() == old(self).tree().root(),
            changed == old(self).tree().live(Self::radices(), index as nat),
    {
        proof {
            law_forget_keeps_root(self.tree(), Self::radices(), index as nat);
        }
        let inner = self.inner.take();
        match inner {
            Some(spine) => {
                let span = tier_capacity::<Item>(A, D);
                let (after, changed) = spine.forget(span, index);
                self.inner = Some(after);
                changed
            },
            None => false,
        }
    }
}

impl<Item: Focus, const A: usize, const D: usize> Subtree for Tier<Item, A, D> {
    open spec fn wf(&self) -> bool {
        &&& shape_ok(Self::radices())
        &&& self.inner matches Some(spine) ==> spine.wf() && spine.height() == D
    }

    open spec fn radices() -> Seq<nat> {
        radices_at::<Item>(A as nat, D as nat)
    }

    open spec fn tree(&self) -> Tree {
        match self.inner {
            Some(spine) => spine.tree(),
            None => Tree::Pruned(Digest::spec_zero()),
        }
    }

    open spec fn filled(&self) -> nat {
        match self.inner {
            Some(spine) => ((spine.len() - 1) * capacity(Item::radices()) + occupied(
                spine.tip(),
            )) as nat,
            None => 0,
        }
    }

    open spec fn cached(&self) -> bool {
        match self.inner {
            Some(Spine::Tip(Insert::Keep(item))) => item.cached(),
            Some(Spine::Tip(Insert::Hash(_))) => true,
            Some(Spine::Branch { siblings, focus }) => false,
            None => true,
        }
    }

    proof fn lemma_wf(&self) {
        Self::lemma_places();
        if self.inner is Some {
            let spine = self.inner->0;
            spine.lemma_fits();
            spine.lemma_len();
            if let Insert::Keep(item) = spine.tip() {
                spine.lemma_tip();
                item.lemma_wf();
            }
            let each = capacity(Item::radices());
            let taken = spine.len();
            let last = occupied(spine.tip());
            assert((taken - 1) * each + last <= Self::places() * each) by (nonlinear_arith)
                requires
                    1 <= taken <= Self::places(),
                    last <= each,
            ;
        }
    }

    fn validate(&self) -> (ok: bool) {
        if tier_checked_capacity::<Item>(A, D).is_none() {
            return false;
        }
        match &self.inner {
            Some(spine) => spine.validate(D),
            None => true,
        }
    }

    fn capacity() -> (n: u64) {
        tier_capacity::<Item>(A, D)
    }

    fn checked_capacity() -> (n: Option<u64>) {
        tier_checked_capacity::<Item>(A, D)
    }

    fn hash(&self) -> (digest: Digest) {
        match &self.inner {
            Some(spine) => spine.hash(),
            None => Digest::zero(),
        }
    }

    fn cached_hash(&self) -> (cached: Option<Digest>) {
        match &self.inner {
            Some(Spine::Tip(Insert::Keep(item))) => item.cached_hash(),
            Some(Spine::Tip(Insert::Hash(digest))) => Some(*digest),
            Some(Spine::Branch { siblings, focus }) => None,
            None => Some(Digest::zero()),
        }
    }

    fn witness(&self, index: u64) -> (found: Option<(AuthPath, Commitment)>) {
        match &self.inner {
            Some(spine) => {
                let span = tier_capacity::<Item>(A, D);
                spine.witness(span, index)
            },
            None => None,
        }
    }

    fn forget_owned(self, index: u64) -> (out: (Insert<Self>, bool))
        ensures
            out.0 is Keep,
    {
        let mut tier = self;
        let changed = tier.forget(index);
        (Insert::Keep(tier), changed)
    }
}

impl<Item: Focus, const A: usize, const D: usize> Focus for Tier<Item, A, D> {
    type Complete = complete::Tier<Item::Complete, A, D>;

    proof fn lemma_complete() {
        Item::lemma_complete();
    }

    fn position(&self) -> (next: Option<u64>) {
        match &self.inner {
            Some(spine) => {
                let span = tier_capacity::<Item>(A, D);
                Some(spine.position(span))
            },
            None => Some(0),
        }
    }

    fn finalize_owned(self) -> (done: Insert<Self::Complete>)
        ensures
            self.inner is None ==> done == Insert::<Self::Complete>::Hash(Digest::spec_zero()),
            self.inner is Some ==> done is Keep,
    {
        proof {
            Item::lemma_complete();
        }
        match self.inner {
            Some(spine) => Insert::Keep(complete::Tier { inner: spine.finalize() }),
            None => Insert::Hash(Digest::zero()),
        }
    }
}

/// **Positions count insertions.** In a tier of commitments, the position that
/// the next item will take is the number of items inserted so far.
pub proof fn law_position_counts<const A: usize, const D: usize>(tier: Tier<Commitment, A, D>)
    requires
        tier.wf(),
    ensures
        tier.filled() == tier.len(),
{
    if let Some(spine) = tier.inner {
        spine.lemma_len();
        assert((spine.len() - 1) * 1 == spine.len() - 1) by (nonlinear_arith);
    }
}

} // verus!
