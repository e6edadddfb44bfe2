use sha2::Digest as _;
use tct::complete;
use tct::complete::Node;
use tct::focus::{Focus, Subtree};
use tct::frontier::tier::Tier;
use tct::frontier::top::Top;
use tct::hash::{hash_leaf, hash_node, Commitment, Digest};
use tct::insert::Insert;
use tct::path::{with_inserted, without, AuthPath};

fn item(n: u8) -> Commitment {
    let mut bytes = [0u8; 32];
    bytes[0] = n;
    bytes[31] = n.wrapping_mul(7);
    Commitment { bytes }
}

fn sha256(data: &[u8]) -> Digest {
    Digest { bytes: sha2::Sha256::digest(data).into() }
}

fn sealed<const A: usize, const D: usize>(
    top: Top<Commitment, A, D>,
) -> complete::Top<Commitment, A, D> {
    match top.finalize() {
        Insert::Keep(done) => done,
        Insert::Hash(_) => panic!("a tier with items seals to a complete tier"),
    }
}

#[test]
fn digest_constants() {
    assert_eq!(Digest::zero().bytes, [0u8; 32]);
    let mut one = [0u8; 32];
    one[0] = 1;
    assert_eq!(Digest::one().bytes, one);
    assert_ne!(Digest::zero(), Digest::one());
}

#[test]
fn leaf_hash_is_tagged_sha256() {
    let a = item(3);
    let mut preimage = vec![0u8];
    preimage.extend_from_slice(&a.bytes);
    assert_eq!(hash_leaf(&a), sha256(&preimage));
    assert_ne!(hash_leaf(&a).bytes, a.bytes);
    assert_ne!(hash_leaf(&a), hash_leaf(&item(4)));
}

#[test]
fn leaf_hash_of_zero_commitment() {
    let zero = Commitment { bytes: [0u8; 32] };
    let expected = sha256(&[0u8; 33]);
    assert_eq!(hash_leaf(&zero), expected);
}

#[test]
fn node_hash_is_tagged_sha256_of_children() {
    let left = hash_leaf(&item(1));
    let right = hash_leaf(&item(2));
    let mut preimage = vec![1u8];
    preimage.extend_from_slice(&left.bytes);
    preimage.extend_from_slice(&right.bytes);
    assert_eq!(hash_node(&vec![left, right]), sha256(&preimage));
    assert_ne!(hash_node(&vec![left, right]), hash_node(&vec![right, left]));
    assert_eq!(hash_node(&vec![]), sha256(&[1u8]));
}

#[test]
fn row_helpers() {
    let row = vec![hash_leaf(&item(1)), hash_leaf(&item(2)), hash_leaf(&item(3))];
    let extra = Digest::one();
    assert_eq!(with_inserted(&row, 0, extra), vec![extra, row[0], row[1], row[2]]);
    assert_eq!(with_inserted(&row, 2, extra), vec![row[0], row[1], extra, row[2]]);
    assert_eq!(with_inserted(&row, 3, extra), vec![row[0], row[1], row[2], extra]);
    assert_eq!(without(&row, 0), vec![row[1], row[2]]);
    assert_eq!(without(&row, 1), vec![row[0], row[2]]);
    assert_eq!(without(&row, 2), vec![row[0], row[1]]);
}

#[test]
fn empty_top() {
    let top: Top<Commitment, 4, 8> = Top::new();
    assert!(top.is_empty());
    assert!(!top.is_full());
    assert_eq!(top.position(), Some(0));
    assert_eq!(top.hash(), Digest::one());
    assert_eq!(top.cached_hash(), Some(Digest::one()));
    assert!(top.focus().is_none());
    assert!(top.witness(0).is_none());
    match top.finalize() {
        Insert::Hash(digest) => assert_eq!(digest, Digest::one()),
        Insert::Keep(_) => panic!("an empty tier seals to a digest"),
    }
}

#[test]
fn empty_tier_has_zero_digest() {
    let tier: Tier<Commitment, 4, 2> = Tier::new();
    assert!(tier.is_empty());
    assert_eq!(tier.hash(), Digest::zero());
    assert_eq!(tier.cached_hash(), Some(Digest::zero()));
    assert_eq!(tier.position(), Some(0));
    match tier.finalize_owned() {
        Insert::Hash(digest) => assert_eq!(digest, Digest::zero()),
        Insert::Keep(_) => panic!("an empty tier seals to a digest"),
    }
}

#[test]
fn binary_depth_two_scenario() {
    let (a, b, c, d, e) = (item(1), item(2), item(3), item(4), item(5));
    let mut top: Top<Commitment, 2, 2> = Top::new();
    for (n, x) in [a, b, c, d].into_iter().enumerate() {
        assert_eq!(top.position(), Some(n as u64));
        assert!(!top.is_full());
        assert_eq!(top.insert(x), Ok(()));
        assert_eq!(top.focus(), Some(&x));
    }
    assert_eq!(top.position(), Some(4));
    assert!(top.is_full());
    assert!(!top.is_empty());

    let left = hash_node(&vec![hash_leaf(&a), hash_leaf(&b)]);
    let right = hash_node(&vec![hash_leaf(&c), hash_leaf(&d)]);
    let root = hash_node(&vec![left, right]);
    assert_eq!(top.hash(), root);

    assert_eq!(top.insert(e), Err(e));
    assert_eq!(top.hash(), root);
    assert_eq!(top.position(), Some(4));
    assert_eq!(top.focus(), Some(&d));
    assert!(top.is_full());

    let mut done = sealed(top);
    assert_eq!(done.hash(), root);

    let (path, found) = done.witness(2).expect("position 2 is live");
    assert_eq!(found, c);
    assert_eq!(path.levels, vec![vec![hash_leaf(&d)], vec![left]]);
    assert_eq!(path.root(2, &found), Some(root));

    assert!(done.forget(2));
    assert_eq!(done.hash(), root);
    assert!(done.witness(2).is_none());
    let (path, found) = done.witness(1).expect("position 1 is still live");
    assert_eq!(found, b);
    assert_eq!(path.levels, vec![vec![hash_leaf(&a)], vec![right]]);
    assert_eq!(path.root(1, &found), Some(root));
    assert!(done.witness(4).is_none());
}

#[test]
fn position_counts_insertions() {
    let mut top: Top<Commitment, 3, 2> = Top::new();
    for n in 0..9u8 {
        assert_eq!(top.position(), Some(n as u64));
        assert_eq!(top.insert(item(n)), Ok(()));
    }
    assert_eq!(top.position(), Some(9));
    assert!(top.is_full());
    assert_eq!(top.insert(item(9)), Err(item(9)));
    assert_eq!(top.position(), Some(9));
}

#[test]
fn rejected_insert_changes_nothing() {
    let mut top: Top<Commitment, 2, 1> = Top::new();
    assert_eq!(top.insert(item(1)), Ok(()));
    assert_eq!(top.insert(item(2)), Ok(()));
    let before = top.hash();
    let rejected = item(3);
    assert_eq!(top.insert(rejected), Err(rejected));
    assert_eq!(top.hash(), before);
    assert_eq!(top.focus(), Some(&item(2)));
    assert_eq!(top.witness(0).map(|found| found.1), Some(item(1)));
    assert_eq!(top.witness(1).map(|found| found.1), Some(item(2)));
}

#[test]
fn partial_tier_pads_with_zero() {
    let mut top: Top<Commitment, 3, 2> = Top::new();
    let (a, b, c, d) = (item(1), item(2), item(3), item(4));
    for x in [a, b, c, d] {
        assert_eq!(top.insert(x), Ok(()));
    }
    let zero = Digest::zero();
    let first = hash_node(&vec![hash_leaf(&a), hash_leaf(&b), hash_leaf(&c)]);
    let second = hash_node(&vec![hash_leaf(&d), zero, zero]);
    let root = hash_node(&vec![first, second, zero]);
    assert_eq!(top.hash(), root);
    assert_eq!(top.cached_hash(), None);
    let (path, found) = top.witness(3).expect("position 3 is live");
    assert_eq!(found, d);
    assert_eq!(path.levels, vec![vec![zero, zero], vec![first, zero]]);
    assert!(top.witness(4).is_none());
    assert!(top.witness(9).is_none());
    assert!(top.witness(u64::MAX).is_none());
}

#[test]
fn finalize_keeps_the_root() {
    for count in 1..=16u8 {
        let mut top: Top<Commitment, 4, 2> = Top::new();
        for n in 0..count {
            assert_eq!(top.insert(item(n)), Ok(()));
        }
        let before = top.hash();
        let done = sealed(top);
        assert_eq!(done.hash(), before);
    }
}

#[test]
fn witnesses_recombine_to_the_root() {
    let mut top: Top<Commitment, 4, 3> = Top::new();
    for n in 0..23u8 {
        assert_eq!(top.insert(item(n)), Ok(()));
        let root = top.hash();
        for p in 0..=n {
            let (path, found) = top.witness(p as u64).expect("an inserted item is live");
            assert_eq!(found, item(p));
            assert_eq!(path.len(), 3);
            assert_eq!(path.root(p as u64, &found), Some(root));
        }
        assert!(top.witness(n as u64 + 1).is_none());
    }
    let root = top.hash();
    let done = sealed(top);
    for p in 0..23u64 {
        let (path, found) = done.witness(p).expect("a sealed item is live");
        assert_eq!(found, item(p as u8));
        assert_eq!(path.root(p, &found), Some(root));
        assert_ne!(path.root(p, &item(99)), Some(root));
    }
    for p in 23..64u64 {
        assert!(done.witness(p).is_none());
    }
    assert!(done.witness(64).is_none());
}

#[test]
fn path_root_rejects_positions_out_of_span() {
    let mut top: Top<Commitment, 2, 2> = Top::new();
    assert_eq!(top.insert(item(1)), Ok(()));
    let (path, found) = top.witness(0).expect("position 0 is live");
    assert_eq!(path.root(0, &found), Some(top.hash()));
    assert!(path.root(3, &found).is_some());
    assert_eq!(path.root(4, &found), None);
    assert_eq!(path.root(u64::MAX, &found), None);
}

#[test]
fn empty_path_is_the_leaf() {
    let path = AuthPath::new();
    assert_eq!(path.len(), 0);
    assert_eq!(path.root(0, &item(7)), Some(hash_leaf(&item(7))));
    assert_eq!(path.root(1, &item(7)), None);
}

#[test]
fn forget_in_frontier() {
    let mut top: Top<Commitment, 2, 3> = Top::new();
    for n in 0..5u8 {
        assert_eq!(top.insert(item(n)), Ok(()));
    }
    let root = top.hash();
    let others: Vec<_> = (0..5u64).map(|p| top.witness(p).map(|w| (w.0.levels, w.1))).collect();

    assert!(top.forget(1));
    assert_eq!(top.hash(), root);
    assert_eq!(top.position(), Some(5));
    assert!(top.witness(1).is_none());
    for p in [0u64, 2, 3, 4] {
        assert_eq!(top.witness(p).map(|w| (w.0.levels, w.1)), others[p as usize]);
    }
    assert!(!top.forget(1));
    assert_eq!(top.hash(), root);
    assert!(!top.forget(5));
    assert!(!top.forget(8));
    assert!(!top.forget(u64::MAX));
    assert_eq!(top.hash(), root);
}

#[test]
fn forgetting_the_focus_allows_insertion() {
    let mut top: Top<Commitment, 2, 2> = Top::new();
    assert_eq!(top.insert(item(1)), Ok(()));
    assert_eq!(top.insert(item(2)), Ok(()));
    let before = top.hash();
    assert!(top.forget(1));
    assert_eq!(top.hash(), before);
    assert!(top.focus().is_none());
    assert_eq!(top.update(|_item| 1u8), None);
    assert_eq!(top.position(), Some(2));
    assert_eq!(top.insert(item(3)), Ok(()));
    assert_eq!(top.position(), Some(3));
    assert_eq!(top.focus(), Some(&item(3)));
    let left = hash_node(&vec![hash_leaf(&item(1)), hash_leaf(&item(2))]);
    let right = hash_node(&vec![hash_leaf(&item(3)), Digest::zero()]);
    assert_eq!(top.hash(), hash_node(&vec![left, right]));
    assert!(top.witness(1).is_none());
    assert_eq!(top.witness(0).map(|w| w.1), Some(item(1)));
}

#[test]
fn forget_is_idempotent_in_complete_tier() {
    let mut top: Top<Commitment, 3, 2> = Top::new();
    for n in 0..7u8 {
        assert_eq!(top.insert(item(n)), Ok(()));
    }
    let mut done = sealed(top);
    let root = done.hash();
    for p in 0..7u64 {
        assert!(done.forget(p));
        assert_eq!(done.hash(), root);
        assert!(!done.forget(p));
        assert_eq!(done.hash(), root);
        assert!(done.witness(p).is_none());
        for q in p + 1..7 {
            let (path, found) = done.witness(q).expect("not yet forgotten");
            assert_eq!(found, item(q as u8));
            assert_eq!(path.root(q, &found), Some(root));
        }
    }
    assert!(!done.forget(7));
    assert!(!done.forget(9));
}

#[test]
fn update_changes_the_newest_item() {
    let mut top: Top<Commitment, 2, 2> = Top::new();
    assert_eq!(top.update(|_item| 0u8), None);
    assert_eq!(top.insert(item(1)), Ok(()));
    assert_eq!(top.insert(item(2)), Ok(()));
    let out = top.update(|newest| {
        let old = newest.bytes[0];
        *newest = item(9);
        old
    });
    assert_eq!(out, Some(2));
    assert_eq!(top.focus(), Some(&item(9)));
    assert_eq!(top.position(), Some(2));
    let left = hash_node(&vec![hash_leaf(&item(1)), hash_leaf(&item(9))]);
    assert_eq!(top.hash(), hash_node(&vec![left, Digest::zero()]));
    assert_eq!(top.witness(1).map(|w| w.1), Some(item(9)));
}

#[test]
fn tier_of_no_levels_holds_one_item() {
    let mut top: Top<Commitment, 4, 0> = Top::new();
    assert_eq!(top.insert(item(1)), Ok(()));
    assert!(top.is_full());
    assert_eq!(top.position(), Some(1));
    assert_eq!(top.hash(), hash_leaf(&item(1)));
    assert_eq!(top.cached_hash(), None);
    assert_eq!(top.insert(item(2)), Err(item(2)));
    let (path, found) = top.witness(0).expect("the item is live");
    assert_eq!(path.len(), 0);
    assert_eq!(found, item(1));
    assert!(top.forget(0));
    assert_eq!(top.cached_hash(), Some(hash_leaf(&item(1))));
    assert_eq!(top.hash(), hash_leaf(&item(1)));
}

#[test]
fn unary_tier() {
    let mut top: Top<Commitment, 1, 3> = Top::new();
    assert_eq!(top.insert(item(1)), Ok(()));
    assert!(top.is_full());
    assert_eq!(top.insert(item(2)), Err(item(2)));
    let leaf = hash_leaf(&item(1));
    let root = hash_node(&vec![hash_node(&vec![hash_node(&vec![leaf])])]);
    assert_eq!(top.hash(), root);
    let (path, found) = top.witness(0).expect("the item is live");
    assert_eq!(path.levels, vec![Vec::<Digest>::new(); 3]);
    assert_eq!(path.root(0, &found), Some(root));
}

#[test]
fn commitment_as_item() {
    let a = item(5);
    assert_eq!(Commitment::capacity(), 1);
    assert_eq!(a.hash(), hash_leaf(&a));
    assert_eq!(a.cached_hash(), None);
    assert_eq!(a.position(), Some(1));
    assert_eq!(a.witness(0).map(|w| (w.0.levels, w.1)), Some((vec![], a)));
    assert!(a.witness(1).is_none());
    match a.forget_owned(1) {
        (Insert::Keep(kept), false) => assert_eq!(kept, a),
        _ => panic!("nothing to forget at position 1"),
    }
    match a.forget_owned(0) {
        (Insert::Hash(digest), true) => assert_eq!(digest, hash_leaf(&a)),
        _ => panic!("position 0 is forgotten"),
    }
    match a.finalize_owned() {
        Insert::Keep(kept) => assert_eq!(kept, a),
        Insert::Hash(_) => panic!("a commitment seals to itself"),
    }
}

#[test]
fn insert_node_forgets_once() {
    let mut node: Insert<Commitment> = Insert::Keep(item(1));
    assert!(node.is_keep());
    assert_eq!(node.hash(), hash_leaf(&item(1)));
    assert!(node.forget());
    assert!(!node.is_keep());
    assert_eq!(node.hash(), hash_leaf(&item(1)));
    assert!(!node.forget());
    assert_eq!(node.hash(), hash_leaf(&item(1)));
    assert!(node.witness(0).is_none());
}

#[test]
fn tiers_within_tiers() {
    type Block = Tier<Commitment, 2, 1>;
    let (a, b, c) = (item(1), item(2), item(3));
    let mut top: Top<Block, 2, 1> = Top::new();
    assert_eq!(Block::capacity(), 2);
    assert_eq!(top.position(), Some(0));

    assert!(top.insert(Block::new()).is_ok());
    assert_eq!(top.position(), Some(0));
    assert!(matches!(top.update(|block| block.insert(a)), Some(Ok(()))));
    assert_eq!(top.position(), Some(1));
    assert!(matches!(top.update(|block| block.insert(b)), Some(Ok(()))));
    assert_eq!(top.position(), Some(2));
    assert_eq!(top.update(|block| block.insert(c)), Some(Err(c)));
    assert!(!top.is_full());

    assert!(top.insert(Block::new()).is_ok());
    assert!(top.is_full());
    assert_eq!(top.position(), Some(2));
    assert!(matches!(top.update(|block| block.insert(c)), Some(Ok(()))));
    assert_eq!(top.position(), Some(3));
    assert!(top.insert(Block::new()).is_err());

    let first = hash_node(&vec![hash_leaf(&a), hash_leaf(&b)]);
    let second = hash_node(&vec![hash_leaf(&c), Digest::zero()]);
    let root = hash_node(&vec![first, second]);
    assert_eq!(top.hash(), root);

    let (path, found) = top.witness(2).expect("position 2 is live");
    assert_eq!(found, c);
    assert_eq!(path.levels, vec![vec![Digest::zero()], vec![first]]);
    assert_eq!(path.root(2, &found), Some(root));
    assert_eq!(top.witness(1).map(|w| w.1), Some(b));
    assert!(top.witness(3).is_none());

    assert!(top.forget(0));
    assert!(!top.forget(0));
    assert_eq!(top.hash(), root);
    assert!(top.witness(0).is_none());

    let mut done = match top.finalize() {
        Insert::Keep(done) => done,
        Insert::Hash(_) => panic!("a tier with items seals to a complete tier"),
    };
    assert_eq!(done.hash(), root);
    assert!(done.witness(0).is_none());
    let (path, found) = done.witness(1).expect("position 1 is live");
    assert_eq!(found, b);
    assert_eq!(path.root(1, &found), Some(root));
    assert!(done.forget(2));
    assert_eq!(done.hash(), root);
    assert!(done.witness(2).is_none());
}

#[test]
fn early_sealed_inner_tier_leaves_a_gap() {
    type Block = Tier<Commitment, 2, 2>;
    let mut top: Top<Block, 2, 1> = Top::new();
    let mut block = Block::new();
    assert_eq!(block.insert(item(1)), Ok(()));
    assert!(top.insert(block).is_ok());
    assert_eq!(top.position(), Some(1));
    let mut block = Block::new();
    assert_eq!(block.insert(item(2)), Ok(()));
    assert!(top.insert(block).is_ok());
    assert_eq!(top.position(), Some(5));
    assert_eq!(top.witness(0).map(|w| w.1), Some(item(1)));
    assert!(top.witness(1).is_none());
    let (path, found) = top.witness(4).expect("position 4 is live");
    assert_eq!(found, item(2));
    assert_eq!(path.len(), 3);
    assert_eq!(path.root(4, &found), Some(top.hash()));
}

#[test]
fn digests_compare_byte_for_byte() {
    let a = hash_leaf(&item(1));
    let b = hash_leaf(&item(2));
    assert!(a.same(&a));
    assert!(!a.same(&b));
    let mut c = a;
    c.bytes[31] ^= 1;
    assert!(!a.same(&c));
    assert!(Digest::zero().same(&Digest::zero()));
    assert!(!Digest::zero().same(&Digest::one()));
}

#[test]
fn try_new_checks_the_shape() {
    assert!(Top::<Commitment, 2, 2>::try_new().is_some());
    assert!(Top::<Commitment, 4, 24>::try_new().is_some());
    assert!(Top::<Commitment, 2, 63>::try_new().is_some());
    assert!(Top::<Commitment, 2, 64>::try_new().is_none());
    assert!(Top::<Commitment, 4, 32>::try_new().is_none());
    assert!(Top::<Commitment, 0, 1>::try_new().is_none());
    assert!(Top::<Commitment, 0, 0>::try_new().is_some());
    assert!(Top::<Commitment, 1, 500>::try_new().is_some());
    assert!(Top::<Tier<Commitment, 4, 8>, 4, 16>::try_new().is_some());
    assert!(Top::<Tier<Commitment, 4, 16>, 4, 16>::try_new().is_none());
    assert!(Top::<Tier<Commitment, 0, 1>, 4, 1>::try_new().is_none());
    assert!(Tier::<Commitment, 3, 3>::try_new().is_some());
    assert!(Tier::<Commitment, 3, 41>::try_new().is_none());
}

#[test]
fn capacities() {
    assert_eq!(Tier::<Commitment, 2, 2>::capacity(), 4);
    assert_eq!(Tier::<Commitment, 4, 8>::capacity(), 65536);
    assert_eq!(Tier::<Commitment, 3, 0>::capacity(), 1);
    assert_eq!(Tier::<Tier<Commitment, 4, 8>, 4, 8>::capacity(), 1u64 << 32);
    assert_eq!(Tier::<Commitment, 2, 63>::checked_capacity(), Some(1u64 << 63));
    assert_eq!(Tier::<Commitment, 2, 64>::checked_capacity(), None);
    assert_eq!(Tier::<Commitment, 0, 3>::checked_capacity(), None);
    assert_eq!(complete::Tier::<Commitment, 3, 4>::capacity(), 81);
    assert_eq!(complete::Tier::<Commitment, 3, 41>::checked_capacity(), None);
}

#[test]
fn validate_accepts_what_the_operations_build() {
    let mut top: Top<Commitment, 3, 2> = Top::new();
    assert!(top.validate());
    for n in 0..7u8 {
        assert_eq!(top.insert(item(n)), Ok(()));
        assert!(top.validate());
    }
    assert!(top.forget(3));
    assert!(top.validate());
    let mut done = sealed(top);
    assert!(done.validate());
    assert!(done.forget(5));
    assert!(done.validate());
}

#[test]
fn validate_refuses_malformed_trees() {
    let mut top: Top<Commitment, 2, 2> = Top::new();
    for n in 0..3u8 {
        assert_eq!(top.insert(item(n)), Ok(()));
    }
    let spine = top.inner.inner.take().expect("the tier has items");

    let shallow: Top<Commitment, 2, 1> = Top { inner: Tier { inner: None } };
    assert!(shallow.validate());
    let misplaced: Top<Commitment, 2, 3> = Top { inner: Tier { inner: Some(spine) } };
    assert!(!misplaced.validate());

    let mut top: Top<Commitment, 2, 1> = Top::new();
    assert_eq!(top.insert(item(1)), Ok(()));
    assert_eq!(top.insert(item(2)), Ok(()));
    let mut done = sealed(top);
    assert!(done.validate());
    match &mut done.inner.inner {
        Insert::Keep(Node::Branch { hash, .. }) => hash.bytes[0] ^= 1,
        _ => panic!("a tier of one level is a branch"),
    }
    assert!(!done.validate());
    match &mut done.inner.inner {
        Insert::Keep(Node::Branch { hash, children }) => {
            hash.bytes[0] ^= 1;
            children.pop();
        }
        _ => panic!("a tier of one level is a branch"),
    }
    assert!(!done.validate());

    let wide: Top<Commitment, 2, 64> = Top { inner: Tier { inner: None } };
    assert!(!wide.validate());
}

#[test]
fn path_root_beyond_sixty_four_levels() {
    let zero = Digest::zero();
    let path = AuthPath { levels: vec![vec![zero]; 70] };
    assert_eq!(path.len(), 70);
    let leaf = item(8);
    for position in [0u64, 5, 1 << 40, u64::MAX] {
        let mut digest = hash_leaf(&leaf);
        for level in 0..70u32 {
            let right = level < 64 && (position >> level) & 1 == 1;
            digest = if right {
                hash_node(&vec![zero, digest])
            } else {
                hash_node(&vec![digest, zero])
            };
        }
        assert_eq!(path.root(position, &leaf), Some(digest));
    }
}

#[test]
fn path_root_with_mixed_widths() {
    let (x, y, z) = (hash_leaf(&item(1)), hash_leaf(&item(2)), hash_leaf(&item(3)));
    let mut path = AuthPath::new();
    path.push(vec![x, y]);
    path.push(vec![z]);
    let leaf = item(9);
    let h = hash_leaf(&leaf);
    assert_eq!(path.root(0, &leaf), Some(hash_node(&vec![hash_node(&vec![h, x, y]), z])));
    assert_eq!(path.root(2, &leaf), Some(hash_node(&vec![hash_node(&vec![x, y, h]), z])));
    assert_eq!(path.root(4, &leaf), Some(hash_node(&vec![z, hash_node(&vec![x, h, y])])));
    assert_eq!(path.root(5, &leaf), Some(hash_node(&vec![z, hash_node(&vec![x, y, h])])));
    assert_eq!(path.root(6, &leaf), None);
}

#[test]
fn frontier_tier_as_subtree() {
    let mut tier: Tier<Commitment, 2, 2> = Tier::new();
    assert!(tier.validate());
    assert!(!tier.forget(0));
    assert!(tier.witness(0).is_none());
    assert!(tier.focus().is_none());
    assert_eq!(tier.update(|_item| 3u8), None);
    for n in 0..3u8 {
        assert_eq!(tier.insert(item(n)), Ok(()));
    }
    assert!(!tier.is_full());
    assert_eq!(tier.position(), Some(3));
    assert_eq!(tier.cached_hash(), None);
    let root = tier.hash();
    let (tier, changed) = match tier.forget_owned(1) {
        (Insert::Keep(tier), changed) => (tier, changed),
        (Insert::Hash(_), _) => panic!("a tier stays a tier"),
    };
    assert!(changed);
    assert_eq!(tier.hash(), root);
    assert_eq!(tier.position(), Some(3));
    assert!(tier.witness(1).is_none());
    let (path, found) = tier.witness(2).expect("position 2 is live");
    assert_eq!(path.root(2, &found), Some(root));

    let done = match tier.finalize_owned() {
        Insert::Keep(done) => done,
        Insert::Hash(_) => panic!("a tier with items seals to a complete tier"),
    };
    assert!(done.validate());
    assert_eq!(done.hash(), root);
    assert_eq!(done.cached_hash(), Some(root));
    assert_eq!(complete::Tier::<Commitment, 2, 2>::capacity(), 4);
    assert!(done.witness(1).is_none());
    assert_eq!(done.witness(0).map(|w| w.1), Some(item(0)));
    let (done, changed) = match done.forget_owned(0) {
        (Insert::Keep(done), changed) => (done, changed),
        (Insert::Hash(_), _) => panic!("a tier stays a tier"),
    };
    assert!(changed);
    assert_eq!(done.hash(), root);
    assert!(done.witness(0).is_none());
    let mut done = done;
    assert!(!done.forget(0));
    assert!(done.forget(2));
    assert!(!done.forget(3));
    assert_eq!(done.hash(), root);
}

#[test]
fn insert_forgets_by_position() {
    let node: Insert<Commitment> = Insert::Keep(item(4));
    assert!(node.validate());
    let (node, changed) = node.forget_at(3);
    assert!(!changed);
    assert!(node.is_keep());
    let (node, changed) = node.forget_at(0);
    assert!(changed);
    assert!(!node.is_keep());
    assert_eq!(node.hash(), hash_leaf(&item(4)));
    let (node, changed) = node.forget_at(0);
    assert!(!changed);
    assert_eq!(node.hash(), hash_leaf(&item(4)));
    assert!(node.validate());
}

#[test]
fn paths_verify_against_the_root() {
    let mut top: Top<Commitment, 3, 3> = Top::new();
    for n in 0..20u8 {
        assert_eq!(top.insert(item(n)), Ok(()));
    }
    let root = top.hash();
    let (path, found) = top.witness(13).expect("position 13 is live");
    assert!(path.verify(13, &found, &root));
    assert!(!path.verify(12, &found, &root));
    assert!(!path.verify(13, &item(12), &root));
    assert!(!path.verify(13, &found, &Digest::zero()));
    assert!(!path.verify(27, &found, &root));
    assert!(!path.verify(u64::MAX, &found, &root));
}
