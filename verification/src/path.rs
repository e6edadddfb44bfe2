//! Authentication paths: the sibling digests that tie an item to a root.

use vstd::prelude::*;
use vstd::arithmetic::div_mod::{lemma_basic_div, lemma_small_mod, lemma_fundamental_div_mod};
use crate::hash::{hash_leaf, hash_node, Commitment, Digest};
use crate::tree::{recombine, span, Path};

verus! {

/// An authentication path: for each level, from the one just above the item up
/// to the root, the digests of the siblings from left to right.
#[derive(Debug)]
pub struct AuthPath {
    pub levels: Vec<Vec<Digest>>,
}

impl View for AuthPath {
    type V = Path;

    open spec fn view(&self) -> Path {
        Seq::new(self.levels@.len(), |i: int| self.levels@[i]@)
    }
}

/// A copy of `row` with `digest` put in at `index`.
pub fn with_inserted(row: &Vec<Digest>, index: usize, digest: Digest) -> (out: Vec<Digest>)
    requires
        index <= row.len(),
    ensures
        out@ == row@.insert(index as int, digest),
{
    let mut out: Vec<Digest> = Vec::new();
    let mut i: usize = 0;
    while i < index
        invariant
            i <= index <= row.len(),
            out@ == row@.take(i as int),
        decreases index - i,
    {
        out.push(row[i]);
        i = i + 1;
        assert(row@.take(i as int) =~= row@.take(i - 1).push(row@[i - 1]));
    }
    out.push(digest);
    while i < row.len()
        invariant
            index <= i <= row.len(),
            out@ == row@.take(index as int).push(digest) + row@.subrange(index as int, i as int),
        decreases row.len() - i,
    {
        out.push(row[i]);
        i = i + 1;
        assert(row@.subrange(index as int, i as int) =~= row@.subrange(
            index as int,
            i - 1,
        ).push(row@[i - 1]));
    }
    assert(out@ =~= row@.insert(index as int, digest));
    out
}

/// A copy of `row` without the digest at `index`.
pub fn without(row: &Vec<Digest>, index: usize) -> (out: Vec<Digest>)
    requires
        index < row.len(),
    ensures
        out@ == row@.remove(index as int),
{
    let mut out: Vec<Digest> = Vec::new();
    let mut i: usize = 0;
    while i < row.len()
        invariant
            i <= row.len(),
            index < row.len(),
            out@ == if i <= index {
                row@.take(i as int)
            } else {
                row@.take(index as int) + row@.subrange(index + 1, i as int)
            },
        decreases row.len() - i,
    {
        if i != index {
            out.push(row[i]);
        }
        i = i + 1;
        if i <= index {
            assert(row@.take(i as int) =~= row@.take(i - 1).push(row@[i - 1]));
        } else if i == index + 1 {
            assert(row@.take(index as int) + row@.subrange(index + 1, i as int) =~= row@.take(
                index as int,
            ));
        } else {
            assert(row@.subrange(index + 1, i as int) =~= row@.subrange(index + 1, i - 1).push(
                row@[i - 1],
            ));
        }
    }
    assert(out@ =~= row@.remove(index as int));
    out
}

/// A path spans at least one position.
pub proof fn lemma_span_positive(path: Path)
    ensures
        span(path) >= 1,
    decreases path.len(),
{
    if path.len() > 0 {
        lemma_span_positive(path.drop_last());
        assert(span(path.drop_last()) * (path.last().len() + 1) >= 1) by (nonlinear_arith)
            requires
                span(path.drop_last()) >= 1,
        ;
    }
}

impl AuthPath {
    /// The path of no levels: that of an item which is its own root.
    pub fn new() -> (path: AuthPath)
        ensures
            path@ == Seq::<Seq<Digest>>::empty(),
    {
        let path = AuthPath { levels: Vec::new() };
        assert(path@ =~= Seq::<Seq<Digest>>::empty());
        path
    }

    /// Adds the siblings of the next level up.
    pub fn push(&mut self, siblings: Vec<Digest>)
        ensures
            final(self)@ == old(self)@.push(siblings@),
    {
        self.levels.push(siblings);
        assert(self@ =~= old(self)@.push(siblings@));
    }

    /// The number of levels.
    pub fn len(&self) -> (n: usize)
        ensures
            n == self@.len(),
    {
        self.levels.len()
    }

    /// For each number of levels from none to all, the positions that the
    /// lowest so many levels span, where that number fits.
    fn spans(&self) -> (out: Vec<Option<u64>>)
        ensures
            out@.len() == self@.len() + 1,
            forall|k: int|
                0 <= k <= self@.len() ==> match #[trigger] out@[k] {
                    Some(n) => n == span(self@.take(k)),
                    None => span(self@.take(k)) > u64::MAX,
                },
    {
        let mut out: Vec<Option<u64>> = Vec::new();
        out.push(Some(1u64));
        assert(self@.take(0) =~= Seq::<Seq<Digest>>::empty());
        let mut k: usize = 0;
        while k < self.levels.len()
            invariant
                k <= self.levels.len(),
                out@.len() == k + 1,
                forall|j: int|
                    0 <= j <= k ==> match #[trigger] out@[j] {
                        Some(n) => n == span(self@.take(j)),
                        None => span(self@.take(j)) > u64::MAX,
                    },
            decreases self.levels.len() - k,
        {
            let ghost lower = self@.take(k as int);
            let ghost upper = self@.take(k + 1);
            proof {
                assert(upper.drop_last() =~= lower);
                assert(upper.last() == self@[k as int]);
                lemma_span_positive(lower);
            }
            let width: usize = self.levels[k].len();
            let next: Option<u64> = match out[k] {
                Some(below) => {
                    if width as u64 == u64::MAX {
                        proof {
                            assert(span(lower) * (width + 1) > u64::MAX) by (nonlinear_arith)
                                requires
                                    span(lower) >= 1,
                                    width + 1 > u64::MAX,
                            ;
                        }
                        None
                    } else {
                        below.checked_mul(width as u64 + 1)
                    }
                },
                None => {
                    proof {
                        assert(span(lower) * (width + 1) > u64::MAX) by (nonlinear_arith)
                            requires
                                span(lower) > u64::MAX,
                                width + 1 >= 1,
                        ;
                    }
                    None
                },
            };
            out.push(next);
            k = k + 1;
        }
        out
    }

    /// Hashes `leaf` upward through the lowest `count` levels.
    fn climb(&self, spans: &Vec<Option<u64>>, count: usize, position: u64, leaf: Digest) -> (d:
        Digest)
        requires
            count <= self@.len(),
            spans@.len() == self@.len() + 1,
            forall|k: int|
                0 <= k <= self@.len() ==> match #[trigger] spans@[k] {
                    Some(n) => n == span(self@.take(k)),
                    None => span(self@.take(k)) > u64::MAX,
                },
            position < span(self@.take(count as int)),
        ensures
            d == recombine(self@.take(count as int), position as nat, leaf),
        decreases count,
    {
        if count == 0 {
            leaf
        } else {
            let ghost lower = self@.take(count - 1);
            let ghost upper = self@.take(count as int);
            proof {
                assert(upper.drop_last() =~= lower);
                assert(upper.last() == self@[count - 1]);
                lemma_span_positive(lower);
            }
            let (index, rest): (u64, u64) = match spans[count - 1] {
                Some(below) => (position / below, position % below),
                None => {
                    proof {
                        lemma_basic_div(position as int, span(lower) as int);
                        lemma_small_mod(position as nat, span(lower));
                    }
                    (0u64, position)
                },
            };
            let row = &self.levels[count - 1];
            proof {
                let below = span(lower);
                lemma_fundamental_div_mod(position as int, below as int);
                assert(index < row@.len() + 1) by (nonlinear_arith)
                    requires
                        position < below * (row@.len() + 1),
                        position == below * index + rest,
                        rest >= 0,
                        below >= 1,
                ;
            }
            let inner = self.climb(spans, count - 1, rest, leaf);
            proof {
                assert(row@ == upper.last());
                assert(index as nat == (position as nat) / span(lower));
                assert(rest as nat == (position as nat) % span(lower));
            }
            let children = with_inserted(row, index as usize, inner);
            hash_node(&children)
        }
    }

    /// Whether the path ties `item`, as the item in place number `position`,
    /// to the root digest `root`.
    pub fn verify(&self, position: u64, item: &Commitment, root: &Digest) -> (ok: bool)
        ensures
            ok == (position < span(self@) && recombine(
                self@,
                position as nat,
                Digest::of_leaf(*item),
            ) == *root),
    {
        match self.root(position, item) {
            Some(digest) => digest.same(root),
            None => false,
        }
    }

    /// Hashes `item` upward along the path, as the item in place number
    /// `position` under the root. Gives nothing where the path spans no such
    /// position.
    pub fn root(&self, position: u64, item: &Commitment) -> (out: Option<Digest>)
        ensures
            out == if position < span(self@) {
                Some(recombine(self@, position as nat, Digest::of_leaf(*item)))
            } else {
                None::<Digest>
            },
    {
        let spans = self.spans();
        let count = self.levels.len();
        assert(self@.take(count as int) =~= self@);
        let within = match spans[count] {
            Some(total) => position < total,
            None => true,
        };
        if within {
            let leaf = hash_leaf(item);
            Some(self.climb(&spans, count, position, leaf))
        } else {
            None
        }
    }
}

} // verus!
