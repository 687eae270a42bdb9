//! Commitment accumulators: one per axis index, fed leaves in position order.

use crate::Axis;
use crate::Error;
use crate::clone_share;
use vstd::arithmetic::div_mod::lemma_add_mod_noop;
use vstd::prelude::*;

verus! {

broadcast use crate::lemma_bytes_deep_view, crate::lemma_shares_deep_view;

/// A commitment accumulator over the shares of one axis. An instance is
/// created for one (axis, index) pair, consumes leaves in strictly ascending
/// position order, and is finalized once into a root.
///
/// `root_model` is the implementation's mathematical root function: the root
/// is determined by the axis, the index and the leaf sequence alone, which is
/// what lets recomputed commitments be compared against trusted roots.
pub trait Tree: Sized {
    /// The axis this accumulator was created for.
    spec fn axis(&self) -> Axis;

    /// The axis index this accumulator was created for.
    spec fn index(&self) -> usize;

    /// The leaves pushed so far, in order.
    spec fn leaves(&self) -> Seq<Seq<u8>>;

    /// The root as a function of the accumulator's identity and its leaves.
    spec fn root_model(axis: Axis, index: usize, leaves: Seq<Seq<u8>>) -> Seq<u8>;

    /// Create an empty accumulator for one (axis, index) pair.
    fn new(axis: Axis, index: usize) -> (t: Self)
        ensures
            t.axis() == axis,
            t.index() == index,
            t.leaves() == Seq::<Seq<u8>>::empty(),
    ;

    /// Append one leaf.
    fn push(&mut self, data: &Vec<u8>) -> (r: Result<(), Error>)
        ensures
            r.is_ok(),
            final (self).axis() == old(self).axis(),
            final (self).index() == old(self).index(),
            final (self).leaves() == old(self).leaves().push(data@),
    ;

    /// Finalize the accumulator and return the root of its leaves.
    fn root(&self) -> (r: Result<Vec<u8>, Error>)
        ensures
            r matches Ok(root) && root@ == Self::root_model(
                self.axis(),
                self.index(),
                self.leaves(),
            ),
    ;
}

/// Total byte length of a sequence of leaves.
pub open spec fn total_leaf_len(leaves: Seq<Seq<u8>>) -> nat
    decreases leaves.len(),
{
    if leaves.len() == 0 {
        0
    } else {
        total_leaf_len(leaves.drop_last()) + leaves.last().len()
    }
}

/// A simple accumulator: the root of a non-empty leaf sequence is 32 copies
/// of the total leaf length reduced modulo 256; the root of no leaves is
/// empty. It is order-insensitive and collision-prone, so it stands in for a
/// cryptographic accumulator only where tamper evidence is not needed.
pub struct DefaultTree {
    pub axis: Axis,
    pub index: usize,
    pub leaves: Vec<Vec<u8>>,
}

impl DefaultTree {
    /// Create an empty accumulator for one (axis, index) pair.
    pub fn new(axis: Axis, index: usize) -> (t: Self)
        ensures
            t.axis == axis,
            t.index == index,
            t.leaves@.len() == 0,
    {
        DefaultTree { axis, index, leaves: Vec::new() }
    }
}

impl Tree for DefaultTree {
    open spec fn axis(&self) -> Axis {
        self.axis
    }

    open spec fn index(&self) -> usize {
        self.index
    }

    open spec fn leaves(&self) -> Seq<Seq<u8>> {
        self.leaves.deep_view()
    }

    open spec fn root_model(axis: Axis, index: usize, leaves: Seq<Seq<u8>>) -> Seq<u8> {
        if leaves.len() == 0 {
            Seq::empty()
        } else {
            Seq::new(32, |i: int| (total_leaf_len(leaves) % 256) as u8)
        }
    }

    fn new(axis: Axis, index: usize) -> (t: Self) {
        let t = DefaultTree::new(axis, index);
        proof {
            assert(t.leaves() =~= Seq::<Seq<u8>>::empty());
        }
        t
    }

    fn push(&mut self, data: &Vec<u8>) -> (r: Result<(), Error>) {
        let share = clone_share(data);
        self.leaves.push(share);
        proof {
            assert(self.leaves.deep_view() =~= old(self).leaves.deep_view().push(data@));
        }
        Ok(())
    }

    fn root(&self) -> (r: Result<Vec<u8>, Error>) {
        if self.leaves.len() == 0 {
            let out: Vec<u8> = Vec::new();
            proof {
                assert(out@ =~= Self::root_model(self.axis, self.index, self.leaves()));
            }
            return Ok(out);
        }
        let ghost lv = self.leaves.deep_view();
        let mut acc: usize = 0;
        let mut i: usize = 0;
        while i < self.leaves.len()
            invariant
                0 <= i <= self.leaves@.len(),
                lv == self.leaves.deep_view(),
                lv.len() == self.leaves@.len(),
                acc == total_leaf_len(lv.take(i as int)) % 256,
            decreases self.leaves@.len() - i,
        {
            let step = self.leaves[i].len() % 256;
            proof {
                let prefix = lv.take(i as int);
                let next = lv.take(i + 1 as int);
                assert(next.drop_last() =~= prefix);
                assert(next.last() == lv[i as int]);
                assert(lv[i as int] == self.leaves@[i as int]@);
                assert(total_leaf_len(next) == total_leaf_len(prefix) + lv[i as int].len());
                lemma_add_mod_noop(
                    total_leaf_len(prefix) as int,
                    lv[i as int].len() as int,
                    256,
                );
            }
            acc = (acc + step) % 256;
            i += 1;
        }
        proof {
            assert(lv.take(lv.len() as int) =~= lv);
        }
        let byte: u8 = acc as u8;
        let mut out: Vec<u8> = Vec::new();
        let mut j: usize = 0;
        while j < 32
            invariant
                0 <= j <= 32,
                out@.len() == j,
                forall|p: int| 0 <= p < j ==> out@[p] == byte,
                byte == (total_leaf_len(lv) % 256) as u8,
            decreases 32 - j,
        {
            out.push(byte);
            j += 1;
        }
        proof {
            assert(out@ =~= Self::root_model(self.axis, self.index, self.leaves()));
        }
        Ok(out)
    }
}

/// Compute the commitment root of one axis's shares through a fresh
/// accumulator.
#[verifier::loop_isolation(false)]
pub(crate) fn compute_axis_root<T: Tree>(axis: Axis, index: usize, shares: &Vec<Vec<u8>>) -> (r:
    Vec<u8>)
    ensures
        r@ == T::root_model(axis, index, shares.deep_view()),
{
    let mut tree = T::new(axis, index);
    let mut i: usize = 0;
    while i < shares.len()
        invariant
            i <= shares@.len(),
            tree.axis() == axis,
            tree.index() == index,
            tree.leaves() == shares.deep_view().take(i as int),
        decreases shares@.len() - i,
    {
        let _ = tree.push(&shares[i]);
        proof {
            assert(shares.deep_view().take(i + 1 as int) =~= shares.deep_view().take(
                i as int,
            ).push(shares@[i as int]@));
        }
        i += 1;
    }
    proof {
        assert(shares.deep_view().take(shares@.len() as int) =~= shares.deep_view());
    }
    match tree.root() {
        Ok(root) => root,
        Err(_) => Vec::new(),
    }
}

/// Construct a [`DefaultTree`] accumulator for one (axis, index) pair.
pub fn new_default_tree(axis: Axis, index: usize) -> (t: DefaultTree)
    ensures
        t.axis == axis,
        t.index == index,
        t.leaves@.len() == 0,
{
    DefaultTree::new(axis, index)
}

} // verus!
