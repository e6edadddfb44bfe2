//! The spine of a frontier: from the root of a tier down to its newest item,
//! with the sealed siblings to the left at every level.

use vstd::prelude::*;
use crate::complete::{
    lemma_descend,
    lemma_slot_fits,
    radices_at,
    row_digests,
    row_trees,
    slot_forget,
    slot_tree,
    slot_validate,
    slot_wf,
    slot_witness,
    Node,
};
use crate::focus::{shape_ok, Focus};
use crate::hash::{hash_node, Commitment, Digest};
use crate::insert::Insert;
use crate::path::{without, AuthPath};
use crate::tree::{
    capacity,
    lemma_capacity_concat,
    lemma_levels_none,
    lemma_slots,
    lemma_split,
    levels,
    Tree,
};

verus! {

/// The part of a frontier from some node down to the newest item.
#[derive(Debug)]
pub enum Spine<Item: Focus, const A: usize> {
    /// The newest item, or its digest once it was forgotten.
    Tip(Insert<Item>),
    /// A node: its sealed children, from left to right, then the child that is
    /// still open. Places to the right of that one are empty.
    Branch { siblings: Vec<Insert<Node<Item::Complete, A>>>, focus: Box<Spine<Item, A>> },
}

/// The children of a frontier node as trees: the sealed ones, the open one,
/// and absent subtrees for the rest.
pub open spec fn spread(arity: nat, sealed: Seq<Tree>, open: Tree) -> Seq<Tree> {
    Seq::new(
        arity,
        |i: int|
            if i < sealed.len() {
                sealed[i]
            } else if i == sealed.len() {
                open
            } else {
                Tree::Pruned(Digest::spec_zero())
            },
    )
}

/// The position beneath the newest item that the next one would take: the
/// whole capacity of the item where only its digest is left.
pub open spec fn occupied<Item: Focus>(item: Insert<Item>) -> nat {
    match item {
        Insert::Keep(kept) => kept.filled(),
        Insert::Hash(_) => capacity(Item::radices()),
    }
}

impl<Item: Focus, const A: usize> Spine<Item, A> {
    /// The number of levels between this node and the items.
    pub open spec fn height(&self) -> nat
        decreases self,
    {
        match self {
            Spine::Tip(_) => 0,
            Spine::Branch { siblings, focus } => focus.height() + 1,
        }
    }

    /// Every node has room left for its open child, and all that is kept is
    /// well formed at its height.
    pub open spec fn wf(&self) -> bool
        decreases self,
    {
        match self {
            Spine::Tip(item) => item.wf(),
            Spine::Branch { siblings, focus } => {
                &&& siblings@.len() < A
                &&& focus.wf()
                &&& forall|i: int|
                    0 <= i < siblings@.len() ==> slot_wf(#[trigger] siblings@[i], focus.height())
            },
        }
    }

    /// The tree this stands for: what sealing it would give.
    pub open spec fn tree(&self) -> Tree
        decreases self,
    {
        match self {
            Spine::Tip(item) => item.tree(),
            Spine::Branch { siblings, focus } => Tree::Node(
                spread(A as nat, row_trees(siblings@), focus.tree()),
            ),
        }
    }

    /// The number of items beneath this node.
    pub open spec fn len(&self) -> nat
        decreases self,
    {
        match self {
            Spine::Tip(_) => 1,
            Spine::Branch { siblings, focus } => siblings@.len() * capacity(
                levels(A as nat, focus.height()),
            ) + focus.len(),
        }
    }

    /// There is no room for another item beneath this node.
    pub open spec fn full(&self) -> bool
        decreases self,
    {
        match self {
            Spine::Tip(_) => true,
            Spine::Branch { siblings, focus } => siblings@.len() + 1 == A && focus.full(),
        }
    }

    /// The newest item, or its digest.
    pub open spec fn tip(&self) -> Insert<Item>
        decreases self,
    {
        match self {
            Spine::Tip(item) => *item,
            Spine::Branch { siblings, focus } => focus.tip(),
        }
    }

    /// The spine with something else in the place of the newest item.
    pub open spec fn with_tip(self, item: Insert<Item>) -> Spine<Item, A>
        decreases self,
    {
        match self {
            Spine::Tip(_) => Spine::Tip(item),
            Spine::Branch { siblings, focus } => Spine::Branch {
                siblings,
                focus: Box::new(focus.with_tip(item)),
            },
        }
    }

    /// A spine holds at least one item and at most as many as there are
    /// places, and is full exactly when it holds that many.
    pub proof fn lemma_len(&self)
        requires
            self.wf(),
        ensures
            1 <= self.len() <= capacity(levels(A as nat, self.height())),
            self.full() <==> self.len() == capacity(levels(A as nat, self.height())),
        decreases self,
    {
        match self {
            Spine::Tip(_) => {
                assert(levels(A as nat, 0) =~= Seq::<nat>::empty());
            },
            Spine::Branch { siblings, focus } => {
                focus.lemma_len();
                lemma_slots(A as nat, self.height());
                lemma_slots(A as nat, focus.height());
                let below = capacity(levels(A as nat, focus.height()));
                let count = siblings@.len();
                assert((count + 1) * below == count * below + below) by (nonlinear_arith);
                assert(count * below + below <= A * below) by (nonlinear_arith)
                    requires
                        count + 1 <= A,
                ;
                assert(count + 1 < A ==> count * below + below + below <= A * below)
                    by (nonlinear_arith)
                    requires
                        count + 1 <= A,
                ;
            },
        }
    }

    /// A well-formed spine has the shape of its height.
    pub proof fn lemma_fits(&self)
        requires
            self.wf(),
        ensures
            self.tree().fits(radices_at::<Item>(A as nat, self.height())),
        decreases self,
    {
        match self {
            Spine::Tip(Insert::Keep(item)) => {
                item.lemma_wf();
                lemma_levels_none(A as nat, Item::radices());
            },
            Spine::Tip(Insert::Hash(_)) => {},
            Spine::Branch { siblings, focus } => {
                focus.lemma_fits();
                Item::lemma_complete();
                let lower = radices_at::<Item>(A as nat, focus.height());
                let whole = radices_at::<Item>(A as nat, self.height());
                assert(whole.drop_first() =~= lower);
                let children = spread(A as nat, row_trees(siblings@), focus.tree());
                assert forall|i: int| 0 <= i < children.len() implies (#[trigger] children[i]).fits(
                    lower,
                ) by {
                    if i < siblings@.len() {
                        assert(slot_wf(siblings@[i], focus.height()));
                        lemma_slot_fits(siblings@[i], focus.height());
                    }
                }
            },
        }
    }

    /// A spine of `depth` levels over a single item.
    pub(crate) fn fresh(item: Item, depth: usize) -> (spine: Self)
        requires
            item.wf(),
            depth > 0 ==> A >= 1,
        ensures
            spine.wf(),
            spine.height() == depth,
            spine.len() == 1,
            spine.tip() == Insert::Keep(item),
            spine.tree() == Tree::Pruned(Digest::spec_zero()).place(
                levels(A as nat, depth as nat),
                0,
                item.tree(),
            ),
    {
        let mut spine: Spine<Item, A> = Spine::Tip(Insert::Keep(item));
        let mut i: usize = 0;
        while i < depth
            invariant
                i <= depth,
                depth > 0 ==> A >= 1,
                spine.wf(),
                spine.height() == i,
                spine.len() == 1,
                spine.tip() == Insert::Keep(item),
                spine.tree() == Tree::Pruned(Digest::spec_zero()).place(
                    levels(A as nat, i as nat),
                    0,
                    item.tree(),
                ),
            decreases depth - i,
        {
            let ghost below = spine.tree();
            spine = Spine::Branch { siblings: Vec::new(), focus: Box::new(spine) };
            i = i + 1;
            proof {
                lemma_slots(A as nat, i as nat);
                let blank = Tree::blank(A as nat);
                let made = spread(A as nat, Seq::<Tree>::empty(), below);
                assert(row_trees(Seq::<Insert<Node<Item::Complete, A>>>::empty())
                    =~= Seq::<Tree>::empty());
                assert(made =~= blank.update(0, below));
                let places = capacity(levels(A as nat, (i - 1) as nat));
                lemma_slots(A as nat, (i - 1) as nat);
                assert(0 * places == 0) by (nonlinear_arith);
                lemma_split(places, 0, 0);
            }
        }
        spine
    }

    /// Whether the spine is well formed and has `depth` levels.
    #[verifier::loop_isolation(false)]
    pub(crate) fn validate(&self, depth: usize) -> (ok: bool)
        ensures
            ok == (self.wf() && self.height() == depth),
        decreases self,
    {
        match self {
            Spine::Tip(item) => depth == 0 && item.validate(),
            Spine::Branch { siblings, focus } => {
                if depth == 0 || siblings.len() >= A {
                    return false;
                }
                if !focus.validate(depth - 1) {
                    return false;
                }
                let mut i: usize = 0;
                while i < siblings.len()
                    invariant
                        i <= siblings@.len(),
                        focus.height() == depth - 1,
                        forall|j: int|
                            0 <= j < i ==> slot_wf(#[trigger] siblings@[j], focus.height()),
                    decreases siblings.len() - i,
                {
                    if !slot_validate(&siblings[i], depth - 1) {
                        assert(!slot_wf(siblings@[i as int], focus.height()));
                        return false;
                    }
                    i = i + 1;
                }
                true
            },
        }
    }

    /// Whether there is no room for another item.
    pub(crate) fn is_full(&self) -> (full: bool)
        requires
            self.wf(),
        ensures
            full == self.full(),
        decreases self,
    {
        match self {
            Spine::Tip(_) => true,
            Spine::Branch { siblings, focus } => siblings.len() + 1 == A && focus.is_full(),
        }
    }

    /// The digests of the children of a node, from left to right: the sealed
    /// ones, the open one, and zero for every place that is still empty.
    fn digests(
        siblings: &Vec<Insert<Node<Item::Complete, A>>>,
        focus: &Spine<Item, A>,
    ) -> (out: Vec<Digest>)
        requires
            siblings@.len() < A,
            focus.wf(),
            forall|i: int| 0 <= i < siblings@.len() ==> slot_wf(#[trigger] siblings@[i], focus.height()),
        ensures
            out@ == Tree::digests(spread(A as nat, row_trees(siblings@), focus.tree())),
        decreases focus, 1nat,
    {
        let ghost children = spread(A as nat, row_trees(siblings@), focus.tree());
        let mut out = row_digests(siblings, Ghost(focus.height()));
        assert(out@ =~= Tree::digests(children).take(siblings@.len() as int));
        out.push(focus.hash());
        assert(out@ =~= Tree::digests(children).take(siblings@.len() as int + 1));
        while out.len() < A
            invariant
                siblings@.len() < out@.len() <= A,
                children.len() == A,
                children == spread(A as nat, row_trees(siblings@), focus.tree()),
                out@ == Tree::digests(children).take(out@.len() as int),
            decreases A - out.len(),
        {
            let ghost before = out@;
            out.push(Digest::zero());
            assert(out@ =~= Tree::digests(children).take(out@.len() as int));
        }
        assert(out@ =~= Tree::digests(children));
        out
    }

    /// The root digest. Digests of sealed children are read, not computed
    /// again; those along the open edge are computed.
    pub(crate) fn hash(&self) -> (digest: Digest)
        requires
            self.wf(),
        ensures
            digest == self.tree().root(),
        decreases self, 0nat,
    {
        match self {
            Spine::Tip(item) => item.hash(),
            Spine::Branch { siblings, focus } => {
                let all = Self::digests(siblings, focus);
                hash_node(&all)
            },
        }
    }

    /// Seals the spine: the open child at every level is sealed, every empty
    /// place gets the zero digest, and each new node its digest. The tree it
    /// stands for stays the same.
    pub(crate) fn finalize(self) -> (done: Insert<Node<Item::Complete, A>>)
        requires
            self.wf(),
        ensures
            slot_wf(done, self.height()),
            slot_tree(done) == self.tree(),
        decreases self,
    {
        match self {
            Spine::Tip(Insert::Keep(item)) => match item.finalize_owned() {
                Insert::Keep(sealed) => Insert::Keep(Node::Item(sealed)),
                Insert::Hash(digest) => Insert::Hash(digest),
            },
            Spine::Tip(Insert::Hash(digest)) => Insert::Hash(digest),
            Spine::Branch { siblings, focus } => {
                let ghost below = focus.height();
                let ghost target = spread(A as nat, row_trees(siblings@), focus.tree());
                let mut children = siblings;
                let sealed = (*focus).finalize();
                children.push(sealed);
                assert(row_trees(children@) =~= target.take(children@.len() as int));
                while children.len() < A
                    invariant
                        0 < children@.len() <= A,
                        target.len() == A,
                        forall|i: int|
                            children@.len() <= i < A ==> target[i] == Tree::Pruned(Digest::spec_zero()),
                        row_trees(children@) == target.take(children@.len() as int),
                        forall|i: int|
                            0 <= i < children@.len() ==> slot_wf(#[trigger] children@[i], below),
                    decreases A - children.len(),
                {
                    children.push(Insert::Hash(Digest::zero()));
                    assert(row_trees(children@) =~= target.take(children@.len() as int));
                }
                assert(row_trees(children@) =~= target);
                let all = row_digests(&children, Ghost(below));
                let hash = hash_node(&all);
                proof {
                    Node::<Item::Complete, A>::lemma_branch(hash, children);
                }
                Insert::Keep(Node::Branch { hash, children })
            },
        }
    }

    /// What a well-formed spine keeps at its tip is well formed.
    pub proof fn lemma_tip(&self)
        requires
            self.wf(),
        ensures
            self.tip().wf(),
        decreases self,
    {
        match self {
            Spine::Tip(_) => {},
            Spine::Branch { siblings, focus } => {
                focus.lemma_tip();
            },
        }
    }

    /// Putting something else in the place of the newest item changes the
    /// tree in that place and nowhere else.
    pub proof fn lemma_with_tip(self, item: Insert<Item>)
        requires
            self.wf(),
            item.wf(),
        ensures
            self.with_tip(item).wf(),
            self.with_tip(item).height() == self.height(),
            self.with_tip(item).len() == self.len(),
            self.with_tip(item).full() == self.full(),
            self.with_tip(item).tip() == item,
            self.with_tip(item).tree() == self.tree().place(
                levels(A as nat, self.height()),
                (self.len() - 1) as nat,
                item.tree(),
            ),
        decreases self,
    {
        match self {
            Spine::Tip(_) => {},
            Spine::Branch { siblings, focus } => {
                focus.lemma_with_tip(item);
                focus.lemma_len();
                lemma_slots(A as nat, self.height());
                lemma_slots(A as nat, focus.height());
                let below = capacity(levels(A as nat, focus.height()));
                let count = siblings@.len();
                lemma_split(below, count, (focus.len() - 1) as nat);
                let before = spread(A as nat, row_trees(siblings@), focus.tree());
                let after = spread(A as nat, row_trees(siblings@), focus.with_tip(item).tree());
                assert(after =~= before.update(count as int, focus.with_tip(item).tree()));
            },
        }
    }

    /// Adds `item` in the first empty place. The open child at the level
    /// where the new item branches off is sealed.
    pub(crate) fn insert_owned(self, item: Item, depth: usize) -> (grown: Self)
        requires
            self.wf(),
            !self.full(),
            item.wf(),
            depth == self.height(),
        ensures
            grown.wf(),
            grown.height() == self.height(),
            grown.len() == self.len() + 1,
            grown.tip() == Insert::Keep(item),
            grown.tree() == self.tree().place(
                levels(A as nat, self.height()),
                self.len(),
                item.tree(),
            ),
        decreases self,
    {
        match self {
            Spine::Tip(_) => Spine::Tip(Insert::Keep(item)),
            Spine::Branch { siblings, focus } => {
                let ghost below = capacity(levels(A as nat, focus.height()));
                let ghost count = siblings@.len();
                let ghost before = spread(A as nat, row_trees(siblings@), focus.tree());
                proof {
                    focus.lemma_len();
                    lemma_slots(A as nat, focus.height() + 1);
                    lemma_slots(A as nat, focus.height());
                }
                if focus.is_full() {
                    let mut siblings = siblings;
                    let sealed = (*focus).finalize();
                    siblings.push(sealed);
                    let fresh = Spine::fresh(item, depth - 1);
                    proof {
                        lemma_split(below, count + 1, 0);
                        assert((count + 1) * below == count * below + below) by (nonlinear_arith);
                        let after = spread(A as nat, row_trees(siblings@), fresh.tree());
                        assert(after =~= before.update(count as int + 1, fresh.tree()));
                    }
                    Spine::Branch { siblings, focus: Box::new(fresh) }
                } else {
                    let ghost taken = focus.len();
                    let grown = (*focus).insert_owned(item, depth - 1);
                    proof {
                        lemma_split(below, count, taken);
                        let after = spread(A as nat, row_trees(siblings@), grown.tree());
                        assert(after =~= before.update(count as int, grown.tree()));
                    }
                    Spine::Branch { siblings, focus: Box::new(grown) }
                }
            },
        }
    }

    /// The newest item, where it is still kept.
    pub(crate) fn focus(&self) -> (found: Option<&Item>)
        ensures
            match self.tip() {
                Insert::Keep(item) => found == Some(&item),
                Insert::Hash(_) => found is None,
            },
        decreases self,
    {
        match self {
            Spine::Tip(Insert::Keep(item)) => Some(item),
            Spine::Tip(Insert::Hash(_)) => None,
            Spine::Branch { siblings, focus } => focus.focus(),
        }
    }

    /// Lets `f` change the newest item in place and hands on what `f` returns.
    /// Does nothing where only the digest of the newest item is left.
    pub(crate) fn update<T, F: FnOnce(&mut Item) -> T>(&mut self, f: F) -> (out: Option<T>)
        requires
            old(self).tip() matches Insert::Keep(item) ==> forall|m: &mut Item|
                *m == item ==> call_requires(f, (m,)),
        ensures
            old(self).tip() is Hash ==> out is None && *final(self) == *old(self),
            old(self).tip() matches Insert::Keep(item) ==> out is Some && (exists|m: &mut Item|
                *m == item && #[trigger] call_ensures(f, (m,), out->0) && *final(self) == old(
                    self,
                ).with_tip(Insert::Keep(*final(m)))),
        decreases *old(self),
    {
        match self {
            Spine::Tip(Insert::Keep(item)) => {
                let ghost before = *item;
                let got = f(item);
                let ghost after = *item;
                let out = Some(got);
                proof {
                    // The borrow that `f` was given is the one that the
                    // contract speaks of.
                    assert(*self == Spine::<Item, A>::Tip(Insert::Keep(after)));
                    assert(old(self).with_tip(Insert::Keep(after)) == Spine::<Item, A>::Tip(
                        Insert::Keep(after),
                    ));
                    assert(exists|m: &mut Item|
                        *m == before && #[trigger] call_ensures(f, (m,), got) && *final(m) == after);
                    assert(out->0 == got);
                    assert(exists|m: &mut Item|
                        *m == before && #[trigger] call_ensures(f, (m,), out->0) && *self == old(
                            self,
                        ).with_tip(Insert::Keep(*final(m))));
                }
                out
            },
            Spine::Tip(Insert::Hash(_)) => None,
            Spine::Branch { siblings, focus } => focus.update(f),
        }
    }

    /// The authentication path and the item at `index` beneath this node,
    /// which covers `span` positions.
    pub(crate) fn witness(&self, span: u64, index: u64) -> (found: Option<(AuthPath, Commitment)>)
        requires
            self.wf(),
            shape_ok(radices_at::<Item>(A as nat, self.height())),
            span == capacity(radices_at::<Item>(A as nat, self.height())),
        ensures
            match self.tree().witness(radices_at::<Item>(A as nat, self.height()), index as nat) {
                Some((path, item)) => found matches Some(pair) && pair.0@ == path && pair.1 == item,
                None => found is None,
            },
        decreases self, 2nat,
    {
        match self {
            Spine::Tip(item) => {
                proof {
                    lemma_levels_none(A as nat, Item::radices());
                    assert(self.height() == 0);
                    assert(radices_at::<Item>(A as nat, 0) == Item::radices());
                    assert(self.tree() == item.tree());
                }
                item.witness(index)
            },
            Spine::Branch { siblings, focus } => {
                proof {
                    lemma_descend::<Item>(A as nat, self.height());
                    Item::lemma_complete();
                }
                let below: u64 = span / (A as u64);
                let at: u64 = index / below;
                let rest: u64 = index % below;
                let inner = if at < siblings.len() as u64 {
                    assert(slot_wf(siblings@[at as int], focus.height()));
                    slot_witness(&siblings[at as usize], Ghost(focus.height()), below, rest)
                } else if at == siblings.len() as u64 {
                    focus.witness(below, rest)
                } else {
                    None
                };
                proof {
                    // What was found is the witness within the child that
                    // `index` falls under.
                    let children = spread(A as nat, row_trees(siblings@), focus.tree());
                    let lower = radices_at::<Item>(A as nat, focus.height());
                    assert(self.tree() == Tree::Node(children));
                    assert(below == capacity(lower));
                    assert(radices_at::<Item>(A as nat, self.height()).drop_first() == lower);
                    assert(at < A ==> match children[at as int].witness(lower, rest as nat) {
                        Some((path, item)) => inner matches Some(pair) && pair.0@ == path && pair.1
                            == item,
                        None => inner is None,
                    });
                    assert(at >= A ==> inner is None);
                }
                match inner {
                    Some(pair) => {
                        let (mut path, item) = pair;
                        let all = Self::digests(siblings, focus);
                        let others = without(&all, at as usize);
                        path.push(others);
                        Some((path, item))
                    },
                    None => None,
                }
            },
        }
    }

    /// Forgets the item at `index` beneath this node, which covers `span`
    /// positions. Says whether anything changed. No digest changes, and the
    /// spine keeps its length.
    pub(crate) fn forget(self, span: u64, index: u64) -> (out: (Self, bool))
        requires
            self.wf(),
            shape_ok(radices_at::<Item>(A as nat, self.height())),
            span == capacity(radices_at::<Item>(A as nat, self.height())),
        ensures
            out.0.wf(),
            out.0.height() == self.height(),
            out.0.len() == self.len(),
            out.0.full() == self.full(),
            occupied(out.0.tip()) == occupied(self.tip()),
            out.0.tree() == self.tree().forget(
                radices_at::<Item>(A as nat, self.height()),
                index as nat,
            ),
            out.1 == self.tree().live(radices_at::<Item>(A as nat, self.height()), index as nat),
        decreases self,
    {
        match self {
            Spine::Tip(item) => {
                proof {
                    lemma_levels_none(A as nat, Item::radices());
                    assert(self.height() == 0);
                    assert(radices_at::<Item>(A as nat, 0) == Item::radices());
                    assert(self.tree() == item.tree());
                }
                let (after, changed) = item.forget_at(index);
                (Spine::Tip(after), changed)
            },
            Spine::Branch { siblings, focus } => {
                let ghost height = focus.height();
                let ghost lower = radices_at::<Item>(A as nat, height);
                let ghost row = siblings@;
                let ghost before = spread(A as nat, row_trees(row), focus.tree());
                proof {
                    lemma_descend::<Item>(A as nat, height + 1);
                    Item::lemma_complete();
                }
                let below: u64 = span / (A as u64);
                let at: u64 = index / below;
                let rest: u64 = index % below;
                proof {
                    // What forgetting means for the node as a whole, in terms
                    // of the child that `index` falls under.
                    let whole = radices_at::<Item>(A as nat, height + 1);
                    assert(self.tree() == Tree::Node(before));
                    assert(whole.drop_first() == lower);
                    assert(below == capacity(lower));
                    assert(at < A ==> self.tree().forget(whole, index as nat) == Tree::Node(
                        before.update(at as int, before[at as int].forget(lower, rest as nat)),
                    ));
                    assert(at < A ==> self.tree().live(whole, index as nat) == before[at as int].live(
                        lower,
                        rest as nat,
                    ));
                    assert(at >= A ==> self.tree().forget(whole, index as nat) == self.tree());
                    assert(at >= A ==> !self.tree().live(whole, index as nat));
                }
                if at < siblings.len() as u64 {
                    let mut siblings = siblings;
                    assert(slot_wf(row[at as int], height));
                    let child = siblings.remove(at as usize);
                    let (after, changed) = slot_forget(child, Ghost(height), below, rest);
                    siblings.insert(at as usize, after);
                    proof {
                        assert(siblings@ =~= row.update(at as int, after));
                        assert(spread(A as nat, row_trees(siblings@), focus.tree())
                            =~= before.update(at as int, slot_tree(after)));
                        assert forall|i: int| 0 <= i < siblings@.len() implies slot_wf(
                            #[trigger] siblings@[i],
                            height,
                        ) by {
                            if i != at {
                                assert(slot_wf(row[i], height));
                            }
                        }
                    }
                    (Spine::Branch { siblings, focus }, changed)
                } else if at == siblings.len() as u64 {
                    let (after, changed) = (*focus).forget(below, rest);
                    proof {
                        assert(spread(A as nat, row_trees(row), after.tree()) =~= before.update(
                            at as int,
                            after.tree(),
                        ));
                    }
                    (Spine::Branch { siblings, focus: Box::new(after) }, changed)
                } else {
                    proof {
                        if at < A {
                            assert(before[at as int] == Tree::Pruned(Digest::spec_zero()));
                            assert(before.update(at as int, before[at as int]) =~= before);
                        }
                    }
                    (Spine::Branch { siblings, focus }, false)
                }
            },
        }
    }

    /// The position that the next item will take beneath this node, which
    /// covers `span` positions: the positions of all items before the newest,
    /// and what the newest has taken of its own.
    pub(crate) fn position(&self, span: u64) -> (next: u64)
        requires
            self.wf(),
            shape_ok(radices_at::<Item>(A as nat, self.height())),
            span == capacity(radices_at::<Item>(A as nat, self.height())),
        ensures
            next == (self.len() - 1) * capacity(Item::radices()) + occupied(self.tip()),
            next <= span,
        decreases self,
    {
        match self {
            Spine::Tip(Insert::Keep(item)) => {
                proof {
                    lemma_levels_none(A as nat, Item::radices());
                    item.lemma_wf();
                    assert(self.height() == 0);
                    assert(0 * capacity(Item::radices()) == 0) by (nonlinear_arith);
                }
                match item.position() {
                    Some(next) => next,
                    None => span,
                }
            },
            Spine::Tip(Insert::Hash(_)) => {
                proof {
                    lemma_levels_none(A as nat, Item::radices());
                    assert(self.height() == 0);
                    assert(0 * capacity(Item::radices()) == 0) by (nonlinear_arith);
                }
                span
            },
            Spine::Branch { siblings, focus } => {
                let ghost height = focus.height();
                let ghost each = capacity(Item::radices());
                let ghost places = capacity(levels(A as nat, height));
                let ghost count = siblings@.len();
                proof {
                    lemma_descend::<Item>(A as nat, height + 1);
                    lemma_capacity_concat(levels(A as nat, height), Item::radices());
                    assert(self.height() == height + 1);
                }
                let below: u64 = span / (A as u64);
                let inner: u64 = focus.position(below);
                proof {
                    let taken = focus.len();
                    let last = occupied(focus.tip());
                    assert(below == places * each);
                    assert(count * below + below <= A * below) by (nonlinear_arith)
                        requires
                            count + 1 <= A,
                    ;
                    assert((count * places + taken - 1) * each + last == count * (places * each) + ((
                    taken - 1) * each + last)) by (nonlinear_arith);
                }
                (siblings.len() as u64) * below + inner
            },
        }
    }
}

} // verus!
