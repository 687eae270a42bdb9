//! Two-dimensional erasure-coded data squares with per-axis commitments.
//!
//! Application data is laid out as a square of fixed-size shares and extended
//! to twice its width by erasure-coding every row and column; each row and
//! column is committed to with an accumulator, and a partially erased square
//! can be reconstructed by the iterative crossword repair algorithm while
//! detecting tampered data against the trusted roots.

pub mod codec;
pub mod data_square;
pub mod extended_data_square;
pub mod tree;

pub use codec::Codec;
pub use codec::LeoRSCodec;
pub use data_square::DataSquare;
pub use extended_data_square::ExtendedDataSquare;
pub use tree::DefaultTree;
pub use tree::Tree;
pub use tree::new_default_tree;

use vstd::prelude::*;

verus! {

/// Identifies which of the two independent codings and commitments a
/// position participates in: cell (r, c) belongs to row r and column c.
#[derive(Debug, Clone, Copy, PartialEq, Eq, Structural)]
pub enum Axis {
    Row,
    Col,
}

/// Errors reported by square construction, root computation and repair.
#[derive(Debug)]
pub enum Error {
    /// Non-empty shares of one square do not all have the same size.
    UnevenChunks,
    /// The crossword repair loop stalled with shares still unset.
    UnrepairableDataSquare,
    /// A reconstructed axis does not reproduce its trusted root; the decoded
    /// shares are carried as evidence.
    ByzantineData { axis: Axis, index: usize, shares: Option<Vec<Vec<u8>>> },
    /// The share count exceeds what the erasure engine supports.
    TooManyChunks,
    /// A non-square share count, an out-of-range index, a wrong-length root
    /// list, or a share size the erasure engine rejects.
    InvalidChunkSize,
    /// A padding share's size does not match the square's share size.
    FillerChunkSizeMismatch,
    /// A root was requested over an axis that still has unset shares.
    IncompleteAxis { axis: Axis },
    /// An erasure-engine failure, with its message.
    Codec(String),
    /// A commitment-accumulator failure, with its message.
    Tree(String),
}

/// Every non-empty share of `s` has length exactly `size`.
pub open spec fn shares_uniform(s: Seq<Seq<u8>>, size: nat) -> bool {
    forall|i: int| 0 <= i < s.len() ==> ((#[trigger] s[i]).len() == 0 || s[i].len() == size)
}

/// Every share of `s` has length exactly `size` (none is unset).
pub open spec fn all_nonempty_len(s: Seq<Seq<u8>>, size: nat) -> bool {
    forall|i: int| 0 <= i < s.len() ==> (#[trigger] s[i]).len() == size
}

/// Length of the first non-empty share at or after position `i`, 0 if none.
pub open spec fn first_share_size_from(s: Seq<Seq<u8>>, i: int) -> nat
    decreases s.len() - i,
{
    if i < 0 || i >= s.len() {
        0
    } else if s[i].len() > 0 {
        s[i].len()
    } else {
        first_share_size_from(s, i + 1)
    }
}

/// Length of the first non-empty share of `s`, 0 if all shares are empty.
pub open spec fn first_share_size(s: Seq<Seq<u8>>) -> nat {
    first_share_size_from(s, 0)
}

pub open spec fn square_of(w: nat) -> nat {
    w * w
}

/// `n` is the product of some natural number with itself.
pub open spec fn is_perfect_square(n: nat) -> bool {
    exists|w: nat| #[trigger] square_of(w) == n
}

/// A byte vector's deep view is its view.
pub broadcast proof fn lemma_bytes_deep_view(v: Vec<u8>)
    ensures
        #[trigger] v.deep_view() == v@,
{
    assert(v.deep_view() =~= v@);
}

/// Indexing the deep view of a share list reads one share's bytes.
pub broadcast proof fn lemma_shares_deep_view(v: Vec<Vec<u8>>, i: int)
    requires
        0 <= i < v@.len(),
    ensures
        #[trigger] v.deep_view()[i] == v@[i]@,
{
    assert(v.deep_view()[i] =~= v@[i]@);
}

/// Copy one share; byte vectors clone to equal contents.
pub(crate) fn clone_share(s: &Vec<u8>) -> (r: Vec<u8>)
    ensures
        r@ == s@,
{
    let r = s.clone();
    proof {
        assert forall|i: int| 0 <= i < s@.len() implies r@[i] == s@[i] by {
            assert(cloned::<u8>(s@[i], r@[i]));
        }
        assert(s@ =~= r@);
    }
    r
}

/// Copy a list of shares, preserving its contents exactly.
pub(crate) fn clone_shares(v: &Vec<Vec<u8>>) -> (r: Vec<Vec<u8>>)
    ensures
        r.deep_view() == v.deep_view(),
        r@.len() == v@.len(),
{
    let mut r: Vec<Vec<u8>> = Vec::new();
    let mut i: usize = 0;
    while i < v.len()
        invariant
            0 <= i <= v@.len(),
            r@.len() == i,
            forall|j: int| 0 <= j < i ==> r.deep_view()[j] == v.deep_view()[j],
        decreases v@.len() - i,
    {
        r.push(clone_share(&v[i]));
        i += 1;
    }
    proof {
        assert(r.deep_view() =~= v.deep_view());
    }
    r
}

/// Byte-for-byte comparison of two shares.
pub(crate) fn bytes_eq(a: &Vec<u8>, b: &Vec<u8>) -> (r: bool)
    ensures
        r <==> a@ == b@,
{
    if a.len() != b.len() {
        proof {
            assert(a@.len() != b@.len());
        }
        return false;
    }
    let mut i: usize = 0;
    while i < a.len()
        invariant
            0 <= i <= a@.len(),
            a@.len() == b@.len(),
            forall|j: int| 0 <= j < i ==> a@[j] == b@[j],
        decreases a@.len() - i,
    {
        if a[i] != b[i] {
            return false;
        }
        i += 1;
    }
    proof {
        assert(a@ =~= b@);
    }
    true
}

} // verus!
