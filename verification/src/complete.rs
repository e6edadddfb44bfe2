//! Complete tiers: subtrees to which nothing more can be added. Their digests
//! are fixed; items in them can still be witnessed, and forgotten one by one.

use vstd::prelude::*;
use vstd::arithmetic::div_mod::lemma_div_by_multiple;
use vstd::arithmetic::mul::lemma_mul_is_commutative;
use crate::focus::{shape_ok, Subtree};
use crate::hash::{hash_node, Commitment, Digest};
use crate::insert::Insert;
use crate::path::{without, AuthPath};
use crate::tree::{
    capacity,
    law_forget_keeps_root,
    law_live_in_range,
    law_witness_recombines,
    positive,
    recombine,
    span,
    lemma_levels_fewer,
    lemma_levels_none,
    lemma_levels_step,
    levels,
    Tree,
};

verus! {

/// A complete subtree: an item, or a node with its digest and all of its
/// `A` children, each kept or forgotten.
#[derive(Debug)]
pub enum Node<C: Subtree, const A: usize> {
    Item(C),
    Branch { hash: Digest, children: Vec<Insert<Node<C, A>>> },
}

/// The shape beneath a node that stands `height` levels above the items.
pub open spec fn radices_at<C: Subtree>(arity: nat, height: nat) -> Seq<nat> {
    levels(arity, height) + C::radices()
}

/// One level down from a node whose shape is in order, the shape is in order
/// too, and the capacity is the node's divided by the arity.
pub proof fn lemma_descend<C: Subtree>(arity: nat, height: nat)
    requires
        height > 0,
        shape_ok(radices_at::<C>(arity, height)),
    ensures
        arity >= 1,
        shape_ok(radices_at::<C>(arity, (height - 1) as nat)),
        radices_at::<C>(arity, height).len() > 0,
        radices_at::<C>(arity, height)[0] == arity,
        radices_at::<C>(arity, height).drop_first() == radices_at::<C>(arity, (height - 1) as nat),
        capacity(radices_at::<C>(arity, (height - 1) as nat)) >= 1,
        capacity(radices_at::<C>(arity, height)) == arity * capacity(
            radices_at::<C>(arity, (height - 1) as nat),
        ),
        capacity(radices_at::<C>(arity, height)) / arity == capacity(
            radices_at::<C>(arity, (height - 1) as nat),
        ),
{
    let lower = radices_at::<C>(arity, (height - 1) as nat);
    lemma_levels_step(arity, height, C::radices());
    lemma_levels_fewer(arity, (height - 1) as nat, height, C::radices());
    assert(radices_at::<C>(arity, height)[0] >= 1);
    lemma_div_by_multiple(capacity(lower) as int, arity as int);
    lemma_mul_is_commutative(capacity(lower) as int, arity as int);
}

/// The tree that a place stands for.
pub open spec fn slot_tree<C: Subtree, const A: usize>(slot: Insert<Node<C, A>>) -> Tree {
    match slot {
        Insert::Keep(node) => node.tree(),
        Insert::Hash(digest) => Tree::Pruned(digest),
    }
}

/// What a place keeps is well formed, `height` levels above the items.
pub open spec fn slot_wf<C: Subtree, const A: usize>(slot: Insert<Node<C, A>>, height: nat) -> bool {
    match slot {
        Insert::Keep(node) => node.wf(height),
        Insert::Hash(_) => true,
    }
}

/// The trees that a row of places stands for.
pub open spec fn row_trees<C: Subtree, const A: usize>(row: Seq<Insert<Node<C, A>>>) -> Seq<Tree> {
    Seq::new(row.len(), |i: int| slot_tree(row[i]))
}

impl<C: Subtree, const A: usize> Node<C, A> {
    /// The tree this stands for.
    pub open spec fn tree(&self) -> Tree
        decreases self,
    {
        match self {
            Node::Item(item) => item.tree(),
            Node::Branch { hash, children } => Tree::Node(
                Seq::new(
                    children@.len(),
                    |i: int|
                        if 0 <= i < children@.len() {
                            match children@[i] {
                                Insert::Keep(node) => node.tree(),
                                Insert::Hash(digest) => Tree::Pruned(digest),
                            }
                        } else {
                            Tree::Pruned(Digest::spec_zero())
                        },
                ),
            ),
        }
    }

    /// The node stands `height` levels above the items, has all its children,
    /// and carries the digest of the node over them; so for all that is kept
    /// beneath it.
    pub open spec fn wf(&self, height: nat) -> bool
        decreases self,
    {
        match self {
            Node::Item(item) => height == 0 && item.wf(),
            Node::Branch { hash, children } => {
                &&& height > 0
                &&& children@.len() == A
                &&& *hash == self.tree().root()
                &&& forall|i: int|
                    0 <= i < children@.len() ==> (#[trigger] children@[i] matches Insert::Keep(node)
                        ==> node.wf((height - 1) as nat))
            },
        }
    }

    /// The tree of a branch is the node over the trees of its places.
    pub proof fn lemma_branch(hash: Digest, children: Vec<Insert<Node<C, A>>>)
        ensures
            (Node::<C, A>::Branch { hash, children }).tree() == Tree::Node(row_trees(children@)),
    {
        assert((Node::<C, A>::Branch { hash, children }).tree()->Node_0 =~= row_trees(children@));
    }

    /// The root digest: that of the item, or the one the branch carries.
    pub(crate) fn hash(&self, Ghost(height): Ghost<nat>) -> (digest: Digest)
        requires
            self.wf(height),
        ensures
            digest == self.tree().root(),
    {
        match self {
            Node::Item(item) => item.hash(),
            Node::Branch { hash, children } => *hash,
        }
    }
}

/// A well-formed place has the shape of its height.
pub proof fn lemma_slot_fits<C: Subtree, const A: usize>(slot: Insert<Node<C, A>>, height: nat)
    requires
        slot_wf(slot, height),
    ensures
        slot_tree(slot).fits(radices_at::<C>(A as nat, height)),
    decreases height,
{
    match slot {
        Insert::Hash(_) => {},
        Insert::Keep(Node::Item(item)) => {
            item.lemma_wf();
            lemma_levels_none(A as nat, C::radices());
        },
        Insert::Keep(Node::Branch { hash, children }) => {
            Node::<C, A>::lemma_branch(hash, children);
            lemma_levels_step(A as nat, height, C::radices());
            let trees = row_trees(children@);
            assert forall|i: int| 0 <= i < trees.len() implies (#[trigger] trees[i]).fits(
                radices_at::<C>(A as nat, (height - 1) as nat),
            ) by {
                assert(slot_wf(children@[i], (height - 1) as nat));
                lemma_slot_fits(children@[i], (height - 1) as nat);
            }
        },
    }
}

/// The digest of a place: the stored one, or that of what is kept.
pub(crate) fn slot_hash<C: Subtree, const A: usize>(
    slot: &Insert<Node<C, A>>,
    Ghost(height): Ghost<nat>,
) -> (digest: Digest)
    requires
        slot_wf(*slot, height),
    ensures
        digest == slot_tree(*slot).root(),
{
    match slot {
        Insert::Keep(node) => node.hash(Ghost(height)),
        Insert::Hash(digest) => *digest,
    }
}

/// The digests of a row of places, from left to right.
pub(crate) fn row_digests<C: Subtree, const A: usize>(
    row: &Vec<Insert<Node<C, A>>>,
    Ghost(height): Ghost<nat>,
) -> (out: Vec<Digest>)
    requires
        forall|i: int| 0 <= i < row@.len() ==> slot_wf(#[trigger] row@[i], height),
    ensures
        out@ == Tree::digests(row_trees(row@)),
{
    let mut out: Vec<Digest> = Vec::new();
    let mut i: usize = 0;
    while i < row.len()
        invariant
            i <= row.len(),
            forall|j: int| 0 <= j < row@.len() ==> slot_wf(#[trigger] row@[j], height),
            out@ == Tree::digests(row_trees(row@)).take(i as int),
        decreases row.len() - i,
    {
        assert(slot_wf(row@[i as int], height));
        out.push(slot_hash(&row[i], Ghost(height)));
        i = i + 1;
        assert(out@ =~= Tree::digests(row_trees(row@)).take(i as int));
    }
    assert(out@ =~= Tree::digests(row_trees(row@)));
    out
}

/// Whether what a place keeps is well formed, `height` levels above the
/// items: every node has its `A` children and carries the digest of the node
/// over them.
#[verifier::loop_isolation(false)]
pub(crate) fn slot_validate<C: Subtree, const A: usize>(
    slot: &Insert<Node<C, A>>,
    height: usize,
) -> (ok: bool)
    ensures
        ok == slot_wf(*slot, height as nat),
    decreases height,
{
    match slot {
        Insert::Hash(_) => true,
        Insert::Keep(Node::Item(item)) => height == 0 && item.validate(),
        Insert::Keep(Node::Branch { hash, children }) => {
            if height == 0 || children.len() != A {
                return false;
            }
            let mut i: usize = 0;
            while i < children.len()
                invariant
                    i <= children@.len(),
                    height > 0,
                    forall|j: int|
                        0 <= j < i ==> slot_wf(#[trigger] children@[j], (height - 1) as nat),
                decreases children.len() - i,
            {
                if !slot_validate(&children[i], height - 1) {
                    assert(!slot_wf(children@[i as int], (height - 1) as nat));
                    return false;
                }
                i = i + 1;
            }
            let all = row_digests(children, Ghost((height - 1) as nat));
            let expected = hash_node(&all);
            proof {
                Node::<C, A>::lemma_branch(*hash, *children);
                assert forall|j: int| 0 <= j < children@.len() implies (
                #[trigger] children@[j] matches Insert::Keep(node) ==> node.wf(
                    (height - 1) as nat,
                )) by {
                    assert(slot_wf(children@[j], (height - 1) as nat));
                }
            }
            hash.same(&expected)
        },
    }
}

/// The authentication path and the item at `index` beneath a place that
/// stands `height` levels above the items and covers `span` positions.
pub(crate) fn slot_witness<C: Subtree, const A: usize>(
    slot: &Insert<Node<C, A>>,
    Ghost(height): Ghost<nat>,
    span: u64,
    index: u64,
) -> (found: Option<(AuthPath, Commitment)>)
    requires
        slot_wf(*slot, height),
        shape_ok(radices_at::<C>(A as nat, height)),
        span == capacity(radices_at::<C>(A as nat, height)),
    ensures
        match slot_tree(*slot).witness(radices_at::<C>(A as nat, height), index as nat) {
            Some((path, item)) => found matches Some(pair) && pair.0@ == path && pair.1 == item,
            None => found is None,
        },
    decreases height,
{
    match slot {
        Insert::Hash(_) => None,
        Insert::Keep(Node::Item(item)) => {
            proof {
                lemma_levels_none(A as nat, C::radices());
            }
            item.witness(index)
        },
        Insert::Keep(Node::Branch { hash, children }) => {
            let ghost lower = radices_at::<C>(A as nat, (height - 1) as nat);
            proof {
                Node::<C, A>::lemma_branch(*hash, *children);
                lemma_descend::<C>(A as nat, height);
            }
            let below: u64 = span / (A as u64);
            let at: u64 = index / below;
            let rest: u64 = index % below;
            if at < A as u64 {
                assert(slot_wf(children@[at as int], (height - 1) as nat));
                match slot_witness(&children[at as usize], Ghost((height - 1) as nat), below, rest) {
                    Some(pair) => {
                        let (mut path, item) = pair;
                        assert forall|i: int| 0 <= i < children@.len() implies slot_wf(
                            #[trigger] children@[i],
                            (height - 1) as nat,
                        ) by {}
                        let all = row_digests(children, Ghost((height - 1) as nat));
                        let siblings = without(&all, at as usize);
                        path.push(siblings);
                        Some((path, item))
                    },
                    None => None,
                }
            } else {
                None
            }
        },
    }
}

/// Forgets the item at `index` beneath a place that stands `height` levels
/// above the items and covers `span` positions. Says whether anything
/// changed. No digest changes.
pub(crate) fn slot_forget<C: Subtree, const A: usize>(
    slot: Insert<Node<C, A>>,
    Ghost(height): Ghost<nat>,
    span: u64,
    index: u64,
) -> (out: (Insert<Node<C, A>>, bool))
    requires
        slot_wf(slot, height),
        shape_ok(radices_at::<C>(A as nat, height)),
        span == capacity(radices_at::<C>(A as nat, height)),
    ensures
        slot_wf(out.0, height),
        slot_tree(out.0) == slot_tree(slot).forget(radices_at::<C>(A as nat, height), index as nat),
        out.1 == slot_tree(slot).live(radices_at::<C>(A as nat, height), index as nat),
    decreases height,
{
    match slot {
        Insert::Hash(digest) => (Insert::Hash(digest), false),
        Insert::Keep(Node::Item(item)) => {
            proof {
                lemma_levels_none(A as nat, C::radices());
            }
            let (after, changed) = item.forget_owned(index);
            match after {
                Insert::Keep(kept) => (Insert::Keep(Node::Item(kept)), changed),
                Insert::Hash(digest) => (Insert::Hash(digest), changed),
            }
        },
        Insert::Keep(Node::Branch { hash, children }) => {
            let ghost lower = radices_at::<C>(A as nat, (height - 1) as nat);
            let ghost before = children@;
            proof {
                Node::<C, A>::lemma_branch(hash, children);
                lemma_descend::<C>(A as nat, height);
            }
            let below: u64 = span / (A as u64);
            let at: u64 = index / below;
            let rest: u64 = index % below;
            if at < A as u64 {
                let mut children = children;
                assert(slot_wf(before[at as int], (height - 1) as nat));
                let child = children.remove(at as usize);
                let (after, changed) = slot_forget(child, Ghost((height - 1) as nat), below, rest);
                children.insert(at as usize, after);
                proof {
                    assert(children@ =~= before.update(at as int, after));
                    law_forget_keeps_root(slot_tree(before[at as int]), lower, rest as nat);
                    assert(row_trees(children@) =~= row_trees(before).update(
                        at as int,
                        slot_tree(after),
                    ));
                    assert(Tree::digests(row_trees(children@)) =~= Tree::digests(
                        row_trees(before),
                    ));
                    Node::<C, A>::lemma_branch(hash, children);
                    assert forall|i: int| 0 <= i < children@.len() implies (
                    #[trigger] children@[i] matches Insert::Keep(node) ==> node.wf(
                        (height - 1) as nat,
                    )) by {
                        if i != at {
                            assert(slot_wf(before[i], (height - 1) as nat));
                        }
                    }
                }
                (Insert::Keep(Node::Branch { hash, children }), changed)
            } else {
                (Insert::Keep(Node::Branch { hash, children }), false)
            }
        },
    }
}

/// The number of positions beneath a tier of `depth` levels of `arity`
/// children each, over items of type `C`.
pub(crate) fn tier_capacity<C: Subtree>(arity: usize, depth: usize) -> (n: u64)
    requires
        shape_ok(radices_at::<C>(arity as nat, depth as nat)),
    ensures
        n == capacity(radices_at::<C>(arity as nat, depth as nat)),
{
    proof {
        lemma_levels_fewer(arity as nat, 0, depth as nat, C::radices());
        lemma_levels_none(arity as nat, C::radices());
    }
    let mut n: u64 = C::capacity();
    let mut i: usize = 0;
    while i < depth
        invariant
            i <= depth,
            shape_ok(radices_at::<C>(arity as nat, depth as nat)),
            n == capacity(radices_at::<C>(arity as nat, i as nat)),
        decreases depth - i,
    {
        proof {
            lemma_levels_fewer(arity as nat, (i + 1) as nat, depth as nat, C::radices());
            lemma_levels_step(arity as nat, (i + 1) as nat, C::radices());
            lemma_mul_is_commutative(n as int, arity as int);
        }
        n = n * (arity as u64);
        i = i + 1;
    }
    n
}

/// The number of positions beneath a tier of `depth` levels of `arity`
/// children each, over items of type `C`, where that shape is in order.
pub(crate) fn tier_checked_capacity<C: Subtree>(arity: usize, depth: usize) -> (n: Option<u64>)
    ensures
        n is Some <==> shape_ok(radices_at::<C>(arity as nat, depth as nat)),
        n matches Some(positions) ==> positions == capacity(
            radices_at::<C>(arity as nat, depth as nat),
        ),
{
    let ghost whole = radices_at::<C>(arity as nat, depth as nat);
    proof {
        lemma_levels_none(arity as nat, C::radices());
        if positive(whole) {
            lemma_levels_fewer(arity as nat, 0, depth as nat, C::radices());
        }
    }
    let mut n: u64 = match C::checked_capacity() {
        Some(each) => each,
        None => {
            return None;
        },
    };
    let mut i: usize = 0;
    while i < depth
        invariant
            i <= depth,
            whole == radices_at::<C>(arity as nat, depth as nat),
            shape_ok(radices_at::<C>(arity as nat, i as nat)),
            n == capacity(radices_at::<C>(arity as nat, i as nat)),
        decreases depth - i,
    {
        let ghost next = radices_at::<C>(arity as nat, (i + 1) as nat);
        proof {
            lemma_levels_step(arity as nat, (i + 1) as nat, C::radices());
            lemma_mul_is_commutative(n as int, arity as int);
            if positive(whole) {
                lemma_levels_fewer(arity as nat, (i + 1) as nat, depth as nat, C::radices());
            } else if arity >= 1 {
                assert forall|j: int| 0 <= j < whole.len() implies #[trigger] whole[j] >= 1 by {
                    if j >= depth {
                        assert(radices_at::<C>(arity as nat, i as nat)[j - depth + i] >= 1);
                    }
                }
            }
            if arity == 0 {
                assert(whole[0] == 0);
            }
        }
        if arity == 0 {
            return None;
        }
        n = match n.checked_mul(arity as u64) {
            Some(more) => more,
            None => {
                return None;
            },
        };
        i = i + 1;
        proof {
            assert forall|j: int| 0 <= j < next.len() implies #[trigger] next[j] >= 1 by {
                if j > 0 {
                    assert(radices_at::<C>(arity as nat, (i - 1) as nat)[j - 1] >= 1);
                }
            }
        }
    }
    Some(n)
}

/// A complete tier: `D` levels of nodes with `A` children each, over items of
/// type `C`.
#[derive(Debug)]
pub struct Tier<C: Subtree, const A: usize, const D: usize> {
    pub inner: Insert<Node<C, A>>,
}

impl<C: Subtree, const A: usize, const D: usize> Tier<C, A, D> {
    /// Forgets the item at `index` in place, and says whether anything
    /// changed. No digest changes.
    pub fn forget(&mut self, index: u64) -> (changed: bool)
        requires
            old(self).wf(),
        ensures
            final(self).wf(),
            final(self).tree() == old(self).tree().forget(Self::radices(), index as nat),
            final(self).tree().root() == old(self).tree().root(),
            changed == old(self).tree().live(Self::radices(), index as nat),
    {
        proof {
            law_forget_keeps_root(self.tree(), Self::radices(), index as nat);
        }
        let span = tier_capacity::<C>(A, D);
        let mut taken: Insert<Node<C, A>> = Insert::Hash(Digest::zero());
        std::mem::swap(&mut self.inner, &mut taken);
        let (after, changed) = slot_forget(taken, Ghost(D as nat), span, index);
        self.inner = after;
        changed
    }
}

impl<C: Subtree, const A: usize, const D: usize> Subtree for Tier<C, A, D> {
    open spec fn wf(&self) -> bool {
        shape_ok(Self::radices()) && slot_wf(self.inner, D as nat)
    }

    open spec fn radices() -> Seq<nat> {
        radices_at::<C>(A as nat, D as nat)
    }

    open spec fn tree(&self) -> Tree {
        slot_tree(self.inner)
    }

    open spec fn filled(&self) -> nat {
        capacity(Self::radices())
    }

    open spec fn cached(&self) -> bool {
        match self.inner {
            Insert::Keep(Node::Item(item)) => item.cached(),
            _ => true,
        }
    }

    proof fn lemma_wf(&self) {
        lemma_slot_fits(self.inner, D as nat);
    }

    fn validate(&self) -> (ok: bool) {
        tier_checked_capacity::<C>(A, D).is_some() && slot_validate(&self.inner, D)
    }

    fn capacity() -> (n: u64) {
        tier_capacity::<C>(A, D)
    }

    fn checked_capacity() -> (n: Option<u64>) {
        tier_checked_capacity::<C>(A, D)
    }

    fn hash(&self) -> (digest: Digest) {
        slot_hash(&self.inner, Ghost(D as nat))
    }

    fn cached_hash(&self) -> (cached: Option<Digest>) {
        match &self.inner {
            Insert::Keep(Node::Item(item)) => item.cached_hash(),
            Insert::Keep(Node::Branch { hash, children }) => Some(*hash),
            Insert::Hash(digest) => Some(*digest),
        }
    }

    fn witness(&self, index: u64) -> (found: Option<(AuthPath, Commitment)>) {
        let span = tier_capacity::<C>(A, D);
        slot_witness(&self.inner, Ghost(D as nat), span, index)
    }

    fn forget_owned(self, index: u64) -> (out: (Insert<Self>, bool))
        ensures
            out.0 is Keep,
    {
        let span = tier_capacity::<C>(A, D);
        let (inner, changed) = slot_forget(self.inner, Ghost(D as nat), span, index);
        (Insert::Keep(Tier { inner }), changed)
    }
}

/// A complete top-level tier.
#[derive(Debug)]
pub struct Top<C: Subtree, const A: usize, const D: usize> {
    pub inner: Tier<C, A, D>,
}

impl<C: Subtree, const A: usize, const D: usize> Top<C, A, D> {
    /// The tier is well formed.
    pub open spec fn wf(&self) -> bool {
        self.inner.wf()
    }

    /// The shape beneath the root.
    pub open spec fn radices() -> Seq<nat> {
        radices_at::<C>(A as nat, D as nat)
    }

    /// The tree this stands for.
    pub open spec fn tree(&self) -> Tree {
        self.inner.tree()
    }

    /// **Witnesses prove the root.** Where a well-formed complete tier has a
    /// witness for a position, the path spans the position, and hashing the
    /// item upward along the path gives the digest of the tier.
    pub proof fn law_witness_proves_root(&self, index: nat)
        requires
            self.wf(),
            self.tree().live(Self::radices(), index),
        ensures
            ({
                let (path, item) = self.tree().witness(Self::radices(), index)->0;
                &&& index < span(path)
                &&& recombine(path, index, Digest::of_leaf(item)) == self.tree().root()
            }),
    {
        self.inner.lemma_wf();
        law_witness_recombines(self.tree(), Self::radices(), index);
        law_live_in_range(self.tree(), Self::radices(), index);
    }

    /// Whether the tier is well formed: to be asked of a tier that did not
    /// come from sealing a frontier. Every digest in it is computed anew.
    pub fn validate(&self) -> (ok: bool)
        ensures
            ok == self.wf(),
    {
        self.inner.validate()
    }

    /// The root digest, fixed when the tier was sealed.
    pub fn hash(&self) -> (digest: Digest)
        requires
            self.wf(),
        ensures
            digest == self.tree().root(),
    {
        self.inner.hash()
    }

    /// The authentication path and the item at `index`. There is none where
    /// `index` is out of range, or the item or a node above it was forgotten.
    pub fn witness(&self, index: u64) -> (found: Option<(AuthPath, Commitment)>)
        requires
            self.wf(),
        ensures
            match self.tree().witness(Self::radices(), index as nat) {
                Some((path, item)) => found matches Some(pair) && pair.0@ == path && pair.1 == item,
                None => found is None,
            },
    {
        self.inner.witness(index)
    }

    /// Forgets the item at `index`, and says whether anything changed: nothing
    /// does where `index` is out of range or the item was forgotten before.
    /// No digest changes.
    pub fn forget(&mut self, index: u64) -> (changed: bool)
        requires
            old(self).wf(),
        ensures
            final(self).wf(),
            final(self).tree() == old(self).tree().forget(Self::radices(), index as nat),
            final(self).tree().root() == old(self).tree().root(),
            changed == old(self).tree().live(Self::radices(), index as nat),
    {
        self.inner.forget(index)
    }
}

} // verus!
