//! The mathematical model of a tree: what every tier, frontier or complete,
//! stands for, and the laws that hold of it.
//!
//! A tree is described together with its *radices*: the number of children of
//! the nodes at each level, from the root down. Positions number the places
//! for items from left to right, so the children of a node whose subtrees have
//! capacity `c` cover the positions `0..c`, `c..2c`, and so on.

use vstd::prelude::*;
use vstd::arithmetic::div_mod::{
    lemma_fundamental_div_mod,
    lemma_fundamental_div_mod_converse,
};
use vstd::arithmetic::mul::{lemma_mul_is_commutative, lemma_mul_is_associative};
use crate::hash::{Commitment, Digest};

verus! {

/// A tree as a value: an item, a digest standing for content that is absent or
/// was forgotten, or a node over its children from left to right.
pub enum Tree {
    Leaf(Commitment),
    Pruned(Digest),
    Node(Seq<Tree>),
}

/// An authentication path as a value: for each level, from the one just above
/// the item up to the root, the digests of the siblings from left to right.
pub type Path = Seq<Seq<Digest>>;

/// The number of positions under a node, given the radices from it downward.
pub open spec fn capacity(radices: Seq<nat>) -> nat
    decreases radices.len(),
{
    if radices.len() == 0 {
        1
    } else {
        radices[0] * capacity(radices.drop_first())
    }
}

/// Every level has at least one child per node.
pub open spec fn positive(radices: Seq<nat>) -> bool {
    forall|i: int| 0 <= i < radices.len() ==> #[trigger] radices[i] >= 1
}

/// The number of positions that a path spans: the product, over its levels,
/// of the number of siblings plus one.
pub open spec fn span(path: Path) -> nat
    decreases path.len(),
{
    if path.len() == 0 {
        1
    } else {
        span(path.drop_last()) * (path.last().len() + 1)
    }
}

/// The digest obtained by hashing `leaf` upward along `path`: at each level the
/// digest from below takes its place among the siblings, and the node over
/// them is hashed.
pub open spec fn recombine(path: Path, position: nat, leaf: Digest) -> Digest
    decreases path.len(),
{
    if path.len() == 0 {
        leaf
    } else {
        let below = span(path.drop_last());
        let index = position / below;
        let inner = recombine(path.drop_last(), position % below, leaf);
        Digest::of_node(path.last().insert(index as int, inner))
    }
}

impl Tree {
    /// The digest at the root.
    pub open spec fn root(self) -> Digest
        decreases self, 1nat,
    {
        match self {
            Tree::Leaf(item) => Digest::of_leaf(item),
            Tree::Pruned(digest) => digest,
            Tree::Node(children) => Digest::of_node(Tree::digests(children)),
        }
    }

    /// The root digests of a row of trees.
    pub open spec fn digests(children: Seq<Tree>) -> Seq<Digest>
        decreases children, 0nat,
    {
        Seq::new(
            children.len(),
            |i: int|
                if 0 <= i < children.len() {
                    children[i].root()
                } else {
                    Digest::spec_zero()
                },
        )
    }

    /// A row of `arity` absent subtrees.
    pub open spec fn blank(arity: nat) -> Seq<Tree> {
        Seq::new(arity, |i: int| Tree::Pruned(Digest::spec_zero()))
    }

    /// The tree has the shape that `radices` describe, wherever its content is
    /// present.
    pub open spec fn fits(self, radices: Seq<nat>) -> bool
        decreases self,
    {
        match self {
            Tree::Leaf(_) => radices.len() == 0,
            Tree::Pruned(_) => true,
            Tree::Node(children) => {
                &&& radices.len() > 0
                &&& children.len() == radices[0]
                &&& forall|i: int|
                    0 <= i < children.len() ==> (#[trigger] children[i]).fits(radices.drop_first())
            },
        }
    }

    /// The authentication path and the item at `position`, where the item and
    /// every node above it are present.
    pub open spec fn witness(self, radices: Seq<nat>, position: nat) -> Option<(Path, Commitment)>
        decreases self,
    {
        match self {
            Tree::Leaf(item) => if position == 0 {
                Some((Seq::empty(), item))
            } else {
                None
            },
            Tree::Pruned(_) => None,
            Tree::Node(children) => {
                let below = capacity(radices.drop_first());
                let index = position / below;
                if radices.len() > 0 && below > 0 && index < children.len() {
                    match children[index as int].witness(radices.drop_first(), position % below) {
                        Some((path, item)) => Some(
                            (path.push(Tree::digests(children).remove(index as int)), item),
                        ),
                        None => None,
                    }
                } else {
                    None
                }
            },
        }
    }

    /// The item at `position`, where it can be witnessed.
    pub open spec fn item_at(self, radices: Seq<nat>, position: nat) -> Option<Commitment> {
        match self.witness(radices, position) {
            Some((_, item)) => Some(item),
            None => None,
        }
    }

    /// Whether the item at `position` can be witnessed.
    pub open spec fn live(self, radices: Seq<nat>, position: nat) -> bool {
        self.witness(radices, position) is Some
    }

    /// The tree after the item at `position` gave way to its digest.
    pub open spec fn forget(self, radices: Seq<nat>, position: nat) -> Tree
        decreases self,
    {
        match self {
            Tree::Leaf(item) => if position == 0 {
                Tree::Pruned(Digest::of_leaf(item))
            } else {
                self
            },
            Tree::Pruned(_) => self,
            Tree::Node(children) => {
                let below = capacity(radices.drop_first());
                let index = position / below;
                if radices.len() > 0 && below > 0 && index < children.len() {
                    Tree::Node(
                        children.update(
                            index as int,
                            children[index as int].forget(radices.drop_first(), position % below),
                        ),
                    )
                } else {
                    self
                }
            },
        }
    }

    /// The tree with `item` as the subtree in place number `slot` at the depth
    /// of `radices.len()` levels. Nodes on the way that are absent come into
    /// being with blank children.
    pub open spec fn place(self, radices: Seq<nat>, slot: nat, item: Tree) -> Tree
        decreases radices.len(),
    {
        if radices.len() == 0 {
            item
        } else {
            let below = capacity(radices.drop_first());
            let children = match self {
                Tree::Node(children) => children,
                _ => Tree::blank(radices[0]),
            };
            let index = if below > 0 {
                slot / below
            } else {
                0
            };
            let rest = if below > 0 {
                slot % below
            } else {
                0
            };
            Tree::Node(
                children.update(
                    index as int,
                    children[index as int].place(radices.drop_first(), rest, item),
                ),
            )
        }
    }
}

/// The shape of `count` levels of `arity` children each.
pub open spec fn levels(arity: nat, count: nat) -> Seq<nat> {
    Seq::new(count, |i: int| arity)
}

/// The capacity of a shape is at least one where every radix is.
pub proof fn lemma_capacity_positive(radices: Seq<nat>)
    requires
        positive(radices),
    ensures
        capacity(radices) >= 1,
    decreases radices.len(),
{
    if radices.len() > 0 {
        lemma_capacity_positive(radices.drop_first());
        assert(radices[0] >= 1);
        assert(radices[0] * capacity(radices.drop_first()) >= 1) by (nonlinear_arith)
            requires
                radices[0] >= 1,
                capacity(radices.drop_first()) >= 1,
        ;
    }
}

/// The capacity of two shapes, one on top of the other, is the product of
/// their capacities.
pub proof fn lemma_capacity_concat(upper: Seq<nat>, lower: Seq<nat>)
    ensures
        capacity(upper + lower) == capacity(upper) * capacity(lower),
    decreases upper.len(),
{
    if upper.len() == 0 {
        assert(upper + lower =~= lower);
        assert(1 * capacity(lower) == capacity(lower)) by (nonlinear_arith);
    } else {
        assert((upper + lower).drop_first() =~= upper.drop_first() + lower);
        lemma_capacity_concat(upper.drop_first(), lower);
        lemma_mul_is_associative(
            upper[0] as int,
            capacity(upper.drop_first()) as int,
            capacity(lower) as int,
        );
    }
}

/// No levels on top of a shape leave the shape as it is.
pub proof fn lemma_levels_none(arity: nat, lower: Seq<nat>)
    ensures
        levels(arity, 0) + lower == lower,
{
    assert(levels(arity, 0) + lower =~= lower);
}

/// One level more on top of a shape multiplies its capacity by the arity.
pub proof fn lemma_levels_step(arity: nat, count: nat, lower: Seq<nat>)
    requires
        count > 0,
    ensures
        (levels(arity, count) + lower).len() > 0,
        (levels(arity, count) + lower)[0] == arity,
        (levels(arity, count) + lower).drop_first() == levels(arity, (count - 1) as nat) + lower,
        capacity(levels(arity, count) + lower) == arity * capacity(
            levels(arity, (count - 1) as nat) + lower,
        ),
{
    assert((levels(arity, count) + lower).drop_first() =~= levels(arity, (count - 1) as nat)
        + lower);
}

/// Levels of at least one child each, on top of a shape with children at every
/// level, make such a shape; and so does the shape with fewer levels on top,
/// whose capacity is no larger.
pub proof fn lemma_levels_fewer(arity: nat, fewer: nat, count: nat, lower: Seq<nat>)
    requires
        fewer <= count,
        positive(levels(arity, count) + lower),
    ensures
        positive(levels(arity, fewer) + lower),
        positive(lower),
        1 <= capacity(levels(arity, fewer) + lower) <= capacity(levels(arity, count) + lower),
    decreases count - fewer,
{
    let whole = levels(arity, count) + lower;
    let part = levels(arity, fewer) + lower;
    assert forall|i: int| 0 <= i < part.len() implies #[trigger] part[i] >= 1 by {
        if i < fewer {
            assert(whole[i] >= 1);
        } else {
            assert(whole[i + (count - fewer)] >= 1);
        }
    }
    assert forall|i: int| 0 <= i < lower.len() implies #[trigger] lower[i] >= 1 by {
        assert(whole[i + count] >= 1);
    }
    lemma_capacity_positive(part);
    if fewer < count {
        lemma_levels_fewer(arity, fewer + 1, count, lower);
        lemma_levels_step(arity, fewer + 1, lower);
        assert(whole[0] >= 1);
        assert(capacity(part) <= arity * capacity(part)) by (nonlinear_arith)
            requires
                arity >= 1,
        ;
    }
}

/// The number of places at the foot of `count` levels is the arity times the
/// number at the foot of one level fewer, and at least one.
pub proof fn lemma_slots(arity: nat, count: nat)
    requires
        arity >= 1,
    ensures
        capacity(levels(arity, count)) >= 1,
        count > 0 ==> {
            &&& levels(arity, count)[0] == arity
            &&& levels(arity, count).drop_first() == levels(arity, (count - 1) as nat)
            &&& capacity(levels(arity, count)) == arity * capacity(
                levels(arity, (count - 1) as nat),
            )
        },
{
    lemma_capacity_positive(levels(arity, count));
    if count > 0 {
        assert(levels(arity, count).drop_first() =~= levels(arity, (count - 1) as nat));
    }
}

/// A position splits into the child it falls under and the position within
/// that child, and is determined by the two.
pub proof fn lemma_split(below: nat, index: nat, rest: nat)
    requires
        rest < below,
    ensures
        (index * below + rest) / below == index,
        (index * below + rest) % below == rest,
{
    lemma_mul_is_commutative(index as int, below as int);
    lemma_fundamental_div_mod_converse(
        (index * below + rest) as int,
        below as int,
        index as int,
        rest as int,
    );
}

/// **Witnesses recombine to the root.** Where a tree of the given shape yields
/// a path and an item for a position, hashing the item upward along the path
/// gives the tree's root digest; the path has one level per radix and spans
/// the tree's capacity.
pub proof fn law_witness_recombines(tree: Tree, radices: Seq<nat>, position: nat)
    requires
        tree.fits(radices),
        tree.live(radices, position),
    ensures
        ({
            let (path, item) = tree.witness(radices, position)->0;
            &&& recombine(path, position, Digest::of_leaf(item)) == tree.root()
            &&& path.len() == radices.len()
            &&& span(path) == capacity(radices)
        }),
    decreases tree,
{
    match tree {
        Tree::Leaf(item) => {},
        Tree::Pruned(_) => {},
        Tree::Node(children) => {
            let lower = radices.drop_first();
            let below = capacity(lower);
            let index = position / below;
            let rest = position % below;
            let child = children[index as int];
            assert(child.fits(lower));
            law_witness_recombines(child, lower, rest);
            let (inner, item) = child.witness(lower, rest)->0;
            let siblings = Tree::digests(children).remove(index as int);
            let path = inner.push(siblings);
            assert(path.drop_last() =~= inner);
            assert(path.last() == siblings);
            assert(siblings.insert(index as int, child.root()) =~= Tree::digests(children));
            assert(siblings.len() + 1 == radices[0]);
            lemma_mul_is_commutative(below as int, radices[0] as int);
        },
    }
}

/// **Forgetting changes no digest.** The root of a tree is the same before and
/// after any position is forgotten.
pub proof fn law_forget_keeps_root(tree: Tree, radices: Seq<nat>, position: nat)
    ensures
        tree.forget(radices, position).root() == tree.root(),
    decreases tree,
{
    match tree {
        Tree::Leaf(item) => {},
        Tree::Pruned(_) => {},
        Tree::Node(children) => {
            let lower = radices.drop_first();
            let below = capacity(lower);
            let index = position / below;
            if radices.len() > 0 && below > 0 && index < children.len() {
                let child = children[index as int];
                law_forget_keeps_root(child, lower, position % below);
                let after = children.update(index as int, child.forget(lower, position % below));
                assert(Tree::digests(after) =~= Tree::digests(children));
            }
        },
    }
}

/// **A forgotten position has no witness.**
pub proof fn law_forget_removes_witness(tree: Tree, radices: Seq<nat>, position: nat)
    ensures
        !tree.forget(radices, position).live(radices, position),
    decreases tree,
{
    match tree {
        Tree::Leaf(item) => {},
        Tree::Pruned(_) => {},
        Tree::Node(children) => {
            let lower = radices.drop_first();
            let below = capacity(lower);
            let index = position / below;
            if radices.len() > 0 && below > 0 && index < children.len() {
                law_forget_removes_witness(children[index as int], lower, position % below);
            }
        },
    }
}

/// **Forgetting one position leaves the witnesses of all others as they
/// were.**
pub proof fn law_forget_keeps_others(tree: Tree, radices: Seq<nat>, position: nat, other: nat)
    requires
        other != position,
    ensures
        tree.forget(radices, position).witness(radices, other) == tree.witness(radices, other),
    decreases tree,
{
    match tree {
        Tree::Leaf(item) => {},
        Tree::Pruned(_) => {},
        Tree::Node(children) => {
            let lower = radices.drop_first();
            let below = capacity(lower);
            let index = position / below;
            let there = other / below;
            if radices.len() > 0 && below > 0 && index < children.len() {
                let child = children[index as int];
                let after = children.update(index as int, child.forget(lower, position % below));
                law_forget_keeps_root(child, lower, position % below);
                assert(Tree::digests(after) =~= Tree::digests(children));
                if there == index {
                    lemma_fundamental_div_mod(position as int, below as int);
                    lemma_fundamental_div_mod(other as int, below as int);
                    law_forget_keeps_others(child, lower, position % below, other % below);
                }
            }
        },
    }
}

/// **What was forgotten stays forgotten.** Forgetting brings nothing back:
/// whatever has a witness afterwards had the same witness before.
pub proof fn law_forget_never_revives(tree: Tree, radices: Seq<nat>, position: nat, other: nat)
    requires
        tree.forget(radices, position).live(radices, other),
    ensures
        tree.forget(radices, position).witness(radices, other) == tree.witness(radices, other),
{
    law_forget_removes_witness(tree, radices, position);
    law_forget_keeps_others(tree, radices, position, other);
}

/// **Forgetting twice is forgetting once.** A second forgetting of the same
/// position finds nothing live there and leaves the tree as the first left it.
pub proof fn law_forget_idempotent(tree: Tree, radices: Seq<nat>, position: nat)
    ensures
        !tree.forget(radices, position).live(radices, position),
        tree.forget(radices, position).forget(radices, position) == tree.forget(radices, position),
        tree.forget(radices, position).forget(radices, position).root() == tree.root(),
    decreases tree,
{
    law_forget_removes_witness(tree, radices, position);
    law_forget_keeps_root(tree, radices, position);
    match tree {
        Tree::Leaf(item) => {},
        Tree::Pruned(_) => {},
        Tree::Node(children) => {
            let lower = radices.drop_first();
            let below = capacity(lower);
            let index = position / below;
            if radices.len() > 0 && below > 0 && index < children.len() {
                let child = children[index as int];
                law_forget_idempotent(child, lower, position % below);
                let once = children.update(index as int, child.forget(lower, position % below));
                let twice = once.update(
                    index as int,
                    once[index as int].forget(lower, position % below),
                );
                assert(twice =~= once);
            }
        },
    }
}

/// Where a position lies within the capacity of a shape with at least one
/// level, it falls under one of the children of the root.
pub proof fn lemma_child_in_range(radices: Seq<nat>, position: nat)
    requires
        radices.len() > 0,
        positive(radices),
        position < capacity(radices),
    ensures
        capacity(radices.drop_first()) >= 1,
        position / capacity(radices.drop_first()) < radices[0],
        position % capacity(radices.drop_first()) < capacity(radices.drop_first()),
{
    let lower = radices.drop_first();
    let below = capacity(lower);
    assert(positive(lower)) by {
        assert forall|i: int| 0 <= i < lower.len() implies #[trigger] lower[i] >= 1 by {
            assert(radices[i + 1] >= 1);
        }
    }
    lemma_capacity_positive(lower);
    lemma_fundamental_div_mod(position as int, below as int);
    let index = position / below;
    let arity = radices[0];
    if index >= arity {
        assert(below * index >= below * arity) by (nonlinear_arith)
            requires
                index >= arity,
        ;
        lemma_mul_is_commutative(below as int, arity as int);
    }
}

/// **An inserted item can be witnessed where it was put.** In a tree of
/// items, the item placed in a place within the capacity is live at the
/// position of that place, and is what the witness there holds.
pub proof fn law_place_is_witnessed(tree: Tree, radices: Seq<nat>, slot: nat, item: Commitment)
    requires
        tree.fits(radices),
        positive(radices),
        slot < capacity(radices),
    ensures
        tree.place(radices, slot, Tree::Leaf(item)).fits(radices),
        tree.place(radices, slot, Tree::Leaf(item)).item_at(radices, slot) == Some(item),
    decreases radices.len(),
{
    if radices.len() > 0 {
        lemma_child_in_range(radices, slot);
        let lower = radices.drop_first();
        let below = capacity(lower);
        let children = match tree {
            Tree::Node(children) => children,
            _ => Tree::blank(radices[0]),
        };
        let index = slot / below;
        let rest = slot % below;
        assert(positive(lower)) by {
            assert forall|i: int| 0 <= i < lower.len() implies #[trigger] lower[i] >= 1 by {
                assert(radices[i + 1] >= 1);
            }
        }
        assert(children[index as int].fits(lower));
        law_place_is_witnessed(children[index as int], lower, rest, item);
        let after = children.update(
            index as int,
            children[index as int].place(lower, rest, Tree::Leaf(item)),
        );
        assert forall|i: int| 0 <= i < after.len() implies (#[trigger] after[i]).fits(lower) by {
            if i != index {
                assert(children[i].fits(lower));
            }
        }
    }
}

/// **Insertion leaves the other items where they were.** In a tree of items,
/// whatever was live at a position other than the one an item is placed at is
/// live there afterwards, with the same item.
pub proof fn law_place_keeps_items(
    tree: Tree,
    radices: Seq<nat>,
    slot: nat,
    item: Commitment,
    other: nat,
)
    requires
        tree.fits(radices),
        positive(radices),
        slot < capacity(radices),
        other != slot,
        tree.live(radices, other),
    ensures
        tree.place(radices, slot, Tree::Leaf(item)).item_at(radices, other) == tree.item_at(
            radices,
            other,
        ),
    decreases radices.len(),
{
    if radices.len() > 0 {
        lemma_child_in_range(radices, slot);
        let lower = radices.drop_first();
        let below = capacity(lower);
        let children = tree->Node_0;
        let index = slot / below;
        let rest = slot % below;
        let there = other / below;
        assert(positive(lower)) by {
            assert forall|i: int| 0 <= i < lower.len() implies #[trigger] lower[i] >= 1 by {
                assert(radices[i + 1] >= 1);
            }
        }
        if there == index {
            lemma_fundamental_div_mod(slot as int, below as int);
            lemma_fundamental_div_mod(other as int, below as int);
            assert(children[index as int].fits(lower));
            law_place_keeps_items(children[index as int], lower, rest, item, other % below);
        }
    }
}

/// **Out of range there is nothing.** What is live in a tree of a given shape
/// lies within its capacity: a position at or beyond it has no witness.
pub proof fn law_live_in_range(tree: Tree, radices: Seq<nat>, position: nat)
    requires
        tree.fits(radices),
        tree.live(radices, position),
    ensures
        position < capacity(radices),
    decreases tree,
{
    match tree {
        Tree::Leaf(item) => {},
        Tree::Pruned(_) => {},
        Tree::Node(children) => {
            let lower = radices.drop_first();
            let below = capacity(lower);
            let index = position / below;
            assert(children[index as int].fits(lower));
            law_live_in_range(children[index as int], lower, position % below);
            lemma_fundamental_div_mod(position as int, below as int);
            let arity = radices[0];
            assert(below * (index + 1) <= below * arity) by (nonlinear_arith)
                requires
                    index + 1 <= arity,
            ;
            assert(below * (index + 1) == below * index + below) by (nonlinear_arith);
            lemma_mul_is_commutative(below as int, arity as int);
        },
    }
}

} // verus!
