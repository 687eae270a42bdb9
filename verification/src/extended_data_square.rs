//! Extended data squares: erasure extension and crossword repair.

use crate::Axis;
use crate::Error;
use crate::all_nonempty_len;
use crate::bytes_eq;
use crate::clone_share;
use crate::codec::Codec;
use crate::data_square::DataSquare;
use crate::data_square::lemma_axes_from_cells;
use crate::data_square::lemma_flat_index_bound;
use crate::first_share_size;
use crate::first_share_size_from;
use crate::is_perfect_square;
use crate::shares_uniform;
use crate::square_of;
use crate::tree::Tree;
use crate::tree::compute_axis_root;
use vstd::arithmetic::div_mod::lemma_div_pos_is_pos;
use vstd::arithmetic::div_mod::lemma_fundamental_div_mod;
use vstd::arithmetic::mul::lemma_mul_inequality;
use vstd::prelude::*;

verus! {

broadcast use crate::lemma_bytes_deep_view, crate::lemma_shares_deep_view;

/// The unique natural square root of a perfect square.
pub open spec fn nat_sqrt(n: nat) -> nat {
    choose|w: nat| square_of(w) == n
}

/// A witness `w * w == n` pins `nat_sqrt(n)` down to `w`.
pub proof fn lemma_nat_sqrt(n: nat, w: nat)
    requires
        w * w == n,
    ensures
        is_perfect_square(n),
        nat_sqrt(n) == w,
{
    assert(square_of(w) == n);
    assert(is_perfect_square(n));
    let v = nat_sqrt(n);
    assert(square_of(v) == n);
    assert(v == w) by (nonlinear_arith)
        requires
            v * v == w * w,
            v >= 0,
            w >= 0,
    ;
}

/// Number of `true` entries.
pub open spec fn count_true(s: Seq<bool>) -> nat
    decreases s.len(),
{
    if s.len() == 0 {
        0
    } else {
        count_true(s.drop_last()) + if s.last() {
            1nat
        } else {
            0nat
        }
    }
}

proof fn lemma_count_true_le(s: Seq<bool>)
    ensures
        count_true(s) <= s.len(),
    decreases s.len(),
{
    if s.len() > 0 {
        lemma_count_true_le(s.drop_last());
    }
}

proof fn lemma_count_true_update(s: Seq<bool>, i: int)
    requires
        0 <= i < s.len(),
        !s[i],
    ensures
        count_true(s.update(i, true)) == count_true(s) + 1,
    decreases s.len(),
{
    let t = s.update(i, true);
    if i == s.len() - 1 {
        assert(t.drop_last() =~= s.drop_last());
    } else {
        assert(t.drop_last() =~= s.drop_last().update(i, true));
        lemma_count_true_update(s.drop_last(), i);
        assert(t.last() == s.last());
    }
}

proof fn lemma_count_true_all(s: Seq<bool>)
    requires
        count_true(s) == s.len(),
    ensures
        forall|i: int| 0 <= i < s.len() ==> s[i],
    decreases s.len(),
{
    if s.len() > 0 {
        lemma_count_true_le(s.drop_last());
        lemma_count_true_all(s.drop_last());
        assert forall|i: int| 0 <= i < s.len() implies s[i] by {
            if i < s.len() - 1 {
                assert(s.drop_last()[i]);
            }
        }
    }
}

proof fn lemma_count_true_all_true(s: Seq<bool>)
    requires
        forall|i: int| 0 <= i < s.len() ==> s[i],
    ensures
        count_true(s) == s.len(),
    decreases s.len(),
{
    if s.len() > 0 {
        lemma_count_true_all_true(s.drop_last());
    }
}

proof fn lemma_count_true_exists_false(s: Seq<bool>)
    requires
        count_true(s) < s.len(),
    ensures
        exists|i: int| 0 <= i < s.len() && !s[i],
{
    if forall|i: int| 0 <= i < s.len() ==> s[i] {
        lemma_count_true_all_true(s);
        assert(false);
    }
}

/// Number of populated (non-empty) shares on one axis.
pub open spec fn known_count(s: Seq<Seq<u8>>) -> nat
    decreases s.len(),
{
    if s.len() == 0 {
        0
    } else {
        known_count(s.drop_last()) + if s.last().len() > 0 {
            1nat
        } else {
            0nat
        }
    }
}

proof fn lemma_known_count_take_step(s: Seq<Seq<u8>>, c: int)
    requires
        0 <= c < s.len(),
    ensures
        known_count(s.take(c + 1)) == known_count(s.take(c)) + if s[c].len() > 0 {
            1nat
        } else {
            0nat
        },
{
    assert(s.take(c + 1).drop_last() =~= s.take(c));
    assert(s.take(c + 1).last() == s[c]);
}

/// One axis cannot currently be solved by the engine: fewer than k of its
/// shares are populated, or its decode fails on the axis's share sequence.
pub open spec fn axis_stalled<C: Codec>(codec: C, k: usize, axis_shares: Seq<Seq<u8>>) -> bool {
    known_count(axis_shares) < k || !codec.decode_ok(axis_shares)
}

/// The flat, row-major share list `flat` read as a k-by-k matrix of rows.
pub open spec fn ods_matrix(flat: Seq<Seq<u8>>, k: int) -> Seq<Seq<Seq<u8>>> {
    Seq::new(k as nat, |i: int| Seq::new(k as nat, |j: int| flat[i * k + j]))
}

/// Cell (i, j) of the top half of the extension: original data on the left,
/// row parity on the right.
pub open spec fn top_cell<C: Codec>(
    codec: C,
    ods: Seq<Seq<Seq<u8>>>,
    k: int,
    i: int,
    j: int,
) -> Seq<u8> {
    if j < k {
        ods[i][j]
    } else {
        codec.encoded(ods[i])[j - k]
    }
}

/// Column `j` of the top half of the extension, top to bottom.
pub open spec fn top_col<C: Codec>(codec: C, ods: Seq<Seq<Seq<u8>>>, k: int, j: int) -> Seq<
    Seq<u8>,
> {
    Seq::new(k as nat, |i: int| top_cell(codec, ods, k, i, j))
}

/// Cell (i, j) of the full 2k-by-2k extension: the top half as above, and
/// below it the column parity of each top-half column.
pub open spec fn eds_cell<C: Codec>(
    codec: C,
    ods: Seq<Seq<Seq<u8>>>,
    k: int,
    i: int,
    j: int,
) -> Seq<u8> {
    if i < k {
        top_cell(codec, ods, k, i, j)
    } else {
        codec.encoded(top_col(codec, ods, k, j))[i - k]
    }
}

/// Every encode of the extension succeeds: one per original row, then one
/// per column of the top half.
pub open spec fn extension_ok<C: Codec>(codec: C, ods: Seq<Seq<Seq<u8>>>, k: int) -> bool {
    &&& (forall|i: int| 0 <= i < k ==> codec.encode_ok(#[trigger] ods[i]))
    &&& (forall|j: int| 0 <= j < 2 * k ==> codec.encode_ok(#[trigger] top_col(codec, ods, k, j)))
}

/// Outcome of one attempt at solving a single axis during repair.
enum AxisOutcome {
    /// The axis is fully known and reproduces its trusted root.
    Solved,
    /// Not enough known shares, or the engine could not decode them.
    Stuck,
    /// The completed axis does not reproduce its trusted root; the full
    /// share list is carried as evidence.
    Mismatch(Vec<Vec<u8>>),
}

/// A square of even width 2k whose top-left k-by-k quadrant carries the
/// original data and whose other three quadrants carry erasure parity, along
/// with the erasure engine that produced or repairs it.
pub struct ExtendedDataSquare<C: Codec, T: Tree> {
    pub data_square: DataSquare<T>,
    pub codec: C,
    pub original_data_width: usize,
}

impl<C: Codec, T: Tree> ExtendedDataSquare<C, T> {
    /// Well-formedness: the storage is well-formed and the width is twice
    /// the original data width.
    pub open spec fn wf(self) -> bool {
        &&& self.data_square.wf()
        &&& self.data_square.width == 2 * self.original_data_width
    }

    /// Build an extended data square from k*k original shares: every original
    /// row is erasure-encoded to the right, then every column of that top
    /// half is erasure-encoded downward, giving a 2k-by-2k square whose
    /// top-left quadrant is exactly the original data.
    #[verifier::loop_isolation(false)]
    pub fn compute(data: Vec<Vec<u8>>, codec: C) -> (r: Result<Self, Error>)
        ensures
            data@.len() > codec.max_chunks_spec() ==> (r matches Err(Error::TooManyChunks)),
            (data@.len() <= codec.max_chunks_spec() && !codec.chunk_size_ok(first_share_size(
                data.deep_view(),
            ) as usize)) ==> r.is_err(),
            (data@.len() <= codec.max_chunks_spec() && codec.chunk_size_ok(first_share_size(
                data.deep_view(),
            ) as usize) && !shares_uniform(data.deep_view(), first_share_size(data.deep_view())))
                ==> (r matches Err(Error::UnevenChunks)),
            (data@.len() <= codec.max_chunks_spec() && codec.chunk_size_ok(first_share_size(
                data.deep_view(),
            ) as usize) && shares_uniform(data.deep_view(), first_share_size(data.deep_view()))
                && !is_perfect_square(data@.len() as nat)) ==> (r matches Err(
                Error::InvalidChunkSize,
            )),
            r.is_ok() <==> ({
                let dv = data.deep_view();
                let n = data@.len() as nat;
                let k = nat_sqrt(n) as int;
                &&& data@.len() <= codec.max_chunks_spec()
                &&& codec.chunk_size_ok(first_share_size(dv) as usize)
                &&& shares_uniform(dv, first_share_size(dv))
                &&& is_perfect_square(n)
                &&& extension_ok(codec, ods_matrix(dv, k), k)
            }),
            r matches Ok(eds) ==> ({
                let dv = data.deep_view();
                let k = eds.original_data_width as int;
                &&& eds.wf()
                &&& eds.codec == codec
                &&& eds.original_data_width * eds.original_data_width == data@.len()
                &&& eds.data_square.share_size == first_share_size(dv)
                &&& eds.data_square.cached_row_roots is None
                &&& eds.data_square.cached_col_roots is None
                &&& (forall|i: int, j: int|
                    0 <= i < 2 * k && 0 <= j < 2 * k ==> #[trigger] eds.data_square.cell(i, j)
                        == eds_cell(codec, ods_matrix(dv, k), k, i, j))
                &&& ((all_nonempty_len(dv, first_share_size(dv)) && first_share_size(dv) > 0)
                    ==> (forall|i: int, j: int|
                    0 <= i < 2 * k && 0 <= j < 2 * k ==> (#[trigger] eds.data_square.cell(
                        i,
                        j,
                    )).len() == first_share_size(dv)))
            }),
    {
        let max = codec.max_chunks();
        if data.len() > max {
            return Err(Error::TooManyChunks);
        }
        let share_size = get_share_size(&data);
        match codec.validate_chunk_size(share_size) {
            Ok(()) => {},
            Err(e) => {
                return Err(e);
            },
        }
        let ghost dv = data.deep_view();
        let ghost n = data@.len() as nat;
        let ds = match DataSquare::<T>::new(data, share_size) {
            Ok(d) => d,
            Err(e) => {
                return Err(e);
            },
        };
        let k = ds.width();
        proof {
            lemma_nat_sqrt(n, k as nat);
            if k >= 2 {
                assert(2 * k <= k * k) by (nonlinear_arith)
                    requires
                        k >= 2,
                ;
            }
        }
        let ghost ods = ods_matrix(dv, k as int);
        let ghost full_in = all_nonempty_len(dv, share_size as nat) && share_size > 0;
        proof {
            assert forall|i: int, j: int| 0 <= i < k && 0 <= j < k implies #[trigger] ods[i][j]
                == ds.cell(i, j) by {
                lemma_flat_index_bound(i, j, k as int);
            }
            assert forall|i: int| 0 <= i < k implies shares_uniform(#[trigger] ods[i], share_size as nat) by {
                assert forall|j: int| 0 <= j < k implies ((#[trigger] ods[i][j]).len() == 0 || ods[i][j].len()
                    == share_size) by {
                    assert(ods[i][j] == ds.cell(i, j));
                }
            }
        }
        let w2 = 2 * k;
        let mut rows: Vec<Vec<Vec<u8>>> = Vec::new();
        let mut i: usize = 0;
        while i < k
            invariant
                i <= k,
                rows@.len() == i,
                forall|ii: int| 0 <= ii < i ==> (#[trigger] rows@[ii])@.len() == w2,
                forall|ii: int, j: int|
                    0 <= ii < i && 0 <= j < w2 ==> (#[trigger] rows@[ii]@[j])@ == top_cell(
                        codec,
                        ods,
                        k as int,
                        ii,
                        j,
                    ),
                forall|ii: int| 0 <= ii < i ==> codec.encode_ok(#[trigger] ods[ii]),
                forall|ii: int, j: int|
                    0 <= ii < i && 0 <= j < w2 ==> ((#[trigger] rows@[ii]@[j])@.len() == 0
                        || rows@[ii]@[j]@.len() == share_size),
                full_in ==> (forall|ii: int, j: int|
                    0 <= ii < i && 0 <= j < w2 ==> (#[trigger] rows@[ii]@[j])@.len() == share_size),
            decreases k - i,
        {
            let mut orig: Vec<Vec<u8>> = Vec::new();
            let mut j: usize = 0;
            while j < k
                invariant
                    j <= k,
                    i < k,
                    orig@.len() == j,
                    forall|jj: int| 0 <= jj < j ==> (#[trigger] orig@[jj])@ == ods[i as int][jj],
                decreases k - j,
            {
                orig.push(clone_share(&ds.square_row[i][j]));
                j += 1;
            }
            proof {
                assert(orig.deep_view() =~= ods[i as int]);
            }
            let parity = match codec.encode(&orig) {
                Ok(p) => p,
                Err(e) => {
                    proof {
                        assert(!codec.encode_ok(ods[i as int]));
                        assert(!extension_ok(codec, ods, k as int));
                    }
                    return Err(e);
                },
            };
            proof {
                assert(shares_uniform(parity.deep_view(), share_size as nat));
            }
            let mut full = orig;
            let mut m: usize = 0;
            while m < parity.len()
                invariant
                    m <= parity@.len(),
                    parity@.len() == k,
                    i < k,
                    full@.len() == k + m,
                    forall|jj: int| 0 <= jj < k ==> (#[trigger] full@[jj])@ == ods[i as int][jj],
                    forall|jj: int|
                        k <= jj < k + m ==> (#[trigger] full@[jj])@ == parity.deep_view()[jj - k],
                decreases parity@.len() - m,
            {
                full.push(clone_share(&parity[m]));
                m += 1;
            }
            rows.push(full);
            proof {
                assert forall|j2: int| 0 <= j2 < w2 implies (#[trigger] full@[j2])@ == top_cell(
                    codec,
                    ods,
                    k as int,
                    i as int,
                    j2,
                ) by {
                    if j2 >= k {
                        assert(full@[j2]@ == parity.deep_view()[j2 - k]);
                        assert(parity.deep_view()[j2 - k] == codec.encoded(ods[i as int])[j2 - k]);
                    }
                }
                assert forall|j2: int|
                    0 <= j2 < w2 implies ((#[trigger] full@[j2])@.len() == 0 || full@[j2]@.len()
                    == share_size) by {
                    if j2 < k {
                        assert(full@[j2]@ == ods[i as int][j2]);
                        assert(ods[i as int][j2] == ds.cell(i as int, j2));
                    } else {
                        assert(full@[j2]@ == parity.deep_view()[j2 - k]);
                    }
                }
                if full_in {
                    assert forall|j2: int|
                        0 <= j2 < k implies (#[trigger] orig.deep_view()[j2]).len()
                        == share_size by {
                        lemma_flat_index_bound(i as int, j2, k as int);
                        assert(orig.deep_view()[j2] == dv[i as int * k + j2]);
                    }
                    assert(all_nonempty_len(orig.deep_view(), share_size as nat));
                    assert(all_nonempty_len(parity.deep_view(), share_size as nat));
                    assert forall|j2: int|
                        0 <= j2 < w2 implies (#[trigger] full@[j2])@.len() == share_size by {
                        if j2 < k {
                            assert(full@[j2]@ == orig.deep_view()[j2]);
                        } else {
                            assert(full@[j2]@ == parity.deep_view()[j2 - k]);
                        }
                    }
                }
            }
            i += 1;
        }
        let mut col_par: Vec<Vec<Vec<u8>>> = Vec::new();
        let mut j: usize = 0;
        while j < w2
            invariant
                j <= w2,
                col_par@.len() == j,
                forall|jj: int| 0 <= jj < j ==> (#[trigger] col_par@[jj])@.len() == k,
                forall|jj: int, rr: int|
                    0 <= jj < j && 0 <= rr < k ==> (#[trigger] col_par@[jj]@[rr])@ == codec.encoded(
                        top_col(codec, ods, k as int, jj),
                    )[rr],
                forall|jj: int|
                    0 <= jj < j ==> codec.encode_ok(#[trigger] top_col(codec, ods, k as int, jj)),
                forall|jj: int, rr: int|
                    0 <= jj < j && 0 <= rr < k ==> ((#[trigger] col_par@[jj]@[rr])@.len() == 0
                        || col_par@[jj]@[rr]@.len() == share_size),
                full_in ==> (forall|jj: int, rr: int|
                    0 <= jj < j && 0 <= rr < k ==> (#[trigger] col_par@[jj]@[rr])@.len()
                        == share_size),
            decreases w2 - j,
        {
            let mut coltop: Vec<Vec<u8>> = Vec::new();
            let mut rr: usize = 0;
            while rr < k
                invariant
                    rr <= k,
                    j < w2,
                    coltop@.len() == rr,
                    forall|r2: int|
                        0 <= r2 < rr ==> (#[trigger] coltop@[r2])@ == top_cell(
                            codec,
                            ods,
                            k as int,
                            r2,
                            j as int,
                        ),
                decreases k - rr,
            {
                coltop.push(clone_share(&rows[rr][j]));
                rr += 1;
            }
            proof {
                assert(coltop.deep_view() =~= top_col(codec, ods, k as int, j as int));
                assert forall|r2: int|
                    0 <= r2 < k implies ((#[trigger] coltop.deep_view()[r2]).len() == 0
                    || coltop.deep_view()[r2].len() == share_size) by {
                    assert(rows@[r2]@[j as int]@ == top_cell(codec, ods, k as int, r2, j as int));
                    assert(rows@[r2]@[j as int]@.len() == 0 || rows@[r2]@[j as int]@.len()
                        == share_size);
                }
                assert(shares_uniform(coltop.deep_view(), share_size as nat));
            }
            let parity = match codec.encode(&coltop) {
                Ok(p) => p,
                Err(e) => {
                    proof {
                        assert(!codec.encode_ok(top_col(codec, ods, k as int, j as int)));
                        assert(!extension_ok(codec, ods, k as int));
                    }
                    return Err(e);
                },
            };
            proof {
                assert(shares_uniform(parity.deep_view(), share_size as nat));
                assert forall|rr: int| 0 <= rr < k implies (#[trigger] parity@[rr])@
                    == codec.encoded(top_col(codec, ods, k as int, j as int))[rr] by {
                    assert(parity.deep_view()[rr] == codec.encoded(
                        top_col(codec, ods, k as int, j as int),
                    )[rr]);
                }
                if full_in {
                    assert forall|rr: int|
                        0 <= rr < k implies (#[trigger] coltop.deep_view()[rr]).len()
                        == share_size by {
                        assert(rows@[rr]@[j as int]@.len() == share_size);
                    }
                    assert(all_nonempty_len(coltop.deep_view(), share_size as nat));
                    assert(all_nonempty_len(parity.deep_view(), share_size as nat));
                }
            }
            col_par.push(parity);
            j += 1;
        }
        let mut rr: usize = 0;
        while rr < k
            invariant
                rr <= k,
                rows@.len() == k + rr,
                col_par@.len() == w2,
                forall|jj: int| 0 <= jj < w2 ==> (#[trigger] col_par@[jj])@.len() == k,
                forall|jj: int, r2: int|
                    0 <= jj < w2 && 0 <= r2 < k ==> (#[trigger] col_par@[jj]@[r2])@
                        == codec.encoded(top_col(codec, ods, k as int, jj))[r2],
                forall|jj: int, r2: int|
                    0 <= jj < w2 && 0 <= r2 < k ==> ((#[trigger] col_par@[jj]@[r2])@.len() == 0
                        || col_par@[jj]@[r2]@.len() == share_size),
                full_in ==> (forall|jj: int, r2: int|
                    0 <= jj < w2 && 0 <= r2 < k ==> (#[trigger] col_par@[jj]@[r2])@.len()
                        == share_size),
                forall|ii: int| 0 <= ii < k + rr ==> (#[trigger] rows@[ii])@.len() == w2,
                forall|ii: int, j2: int|
                    0 <= ii < k && 0 <= j2 < w2 ==> (#[trigger] rows@[ii]@[j2])@ == top_cell(
                        codec,
                        ods,
                        k as int,
                        ii,
                        j2,
                    ),
                forall|ii: int, j2: int|
                    k <= ii < k + rr && 0 <= j2 < w2 ==> (#[trigger] rows@[ii]@[j2])@
                        == codec.encoded(top_col(codec, ods, k as int, j2))[ii - k],
                forall|ii: int, j2: int|
                    0 <= ii < k + rr && 0 <= j2 < w2 ==> ((#[trigger] rows@[ii]@[j2])@.len() == 0
                        || rows@[ii]@[j2]@.len() == share_size),
                full_in ==> (forall|ii: int, j2: int|
                    0 <= ii < k + rr && 0 <= j2 < w2 ==> (#[trigger] rows@[ii]@[j2])@.len()
                        == share_size),
            decreases k - rr,
        {
            let mut rowv: Vec<Vec<u8>> = Vec::new();
            let mut j2: usize = 0;
            while j2 < w2
                invariant
                    j2 <= w2,
                    rr < k,
                    rowv@.len() == j2,
                    forall|jj: int|
                        0 <= jj < j2 ==> (#[trigger] rowv@[jj])@ == col_par@[jj]@[rr as int]@,
                decreases w2 - j2,
            {
                rowv.push(clone_share(&col_par[j2][rr]));
                j2 += 1;
            }
            rows.push(rowv);
            rr += 1;
        }
        let ds2 = DataSquare::<T>::from_rows(rows, w2, share_size);
        let eds = ExtendedDataSquare { data_square: ds2, codec, original_data_width: k };
        proof {
            assert forall|i2: int, j2: int|
                0 <= i2 < w2 && 0 <= j2 < w2 implies #[trigger] eds.data_square.cell(i2, j2)
                == eds_cell(codec, ods, k as int, i2, j2) by {
                assert(eds.data_square.cell(i2, j2) == rows@[i2]@[j2]@);
            }
            assert(extension_ok(codec, ods, k as int));
            if full_in {
                assert forall|i2: int, j2: int|
                    0 <= i2 < w2 && 0 <= j2 < w2 implies (#[trigger] eds.data_square.cell(
                    i2,
                    j2,
                )).len() == share_size by {
                    assert(eds.data_square.cell(i2, j2) == rows@[i2]@[j2]@);
                }
            }
        }
        Ok(eds)
    }

    /// Import an already-extended share set, e.g. one received over a
    /// network, without recomputing parity. The share count may be at most
    /// four times the engine's capacity, and the resulting width must be
    /// even and non-zero.
    #[verifier::loop_isolation(false)]
    pub fn import(data: Vec<Vec<u8>>, codec: C) -> (r: Result<Self, Error>)
        ensures
            data@.len() > 4 * codec.max_chunks_spec() ==> (r matches Err(Error::TooManyChunks)),
            (data@.len() <= 4 * codec.max_chunks_spec() && !codec.chunk_size_ok(first_share_size(
                data.deep_view(),
            ) as usize)) ==> r.is_err(),
            (data@.len() <= 4 * codec.max_chunks_spec() && codec.chunk_size_ok(first_share_size(
                data.deep_view(),
            ) as usize)) ==> ({
                let dv = data.deep_view();
                let n = data@.len() as nat;
                &&& ((r matches Err(Error::UnevenChunks)) <==> !shares_uniform(
                    dv,
                    first_share_size(dv),
                ))
                &&& ((r matches Err(Error::InvalidChunkSize)) <==> (shares_uniform(
                    dv,
                    first_share_size(dv),
                ) && (!is_perfect_square(n) || nat_sqrt(n) == 0 || nat_sqrt(n) % 2 != 0)))
            }),
            r.is_ok() <==> ({
                let dv = data.deep_view();
                let n = data@.len() as nat;
                &&& data@.len() <= 4 * codec.max_chunks_spec()
                &&& codec.chunk_size_ok(first_share_size(dv) as usize)
                &&& shares_uniform(dv, first_share_size(dv))
                &&& is_perfect_square(n)
                &&& nat_sqrt(n) > 0
                &&& nat_sqrt(n) % 2 == 0
            }),
            r matches Ok(eds) ==> ({
                let dv = data.deep_view();
                &&& eds.wf()
                &&& eds.codec == codec
                &&& eds.data_square.width * eds.data_square.width == data@.len()
                &&& eds.original_data_width == eds.data_square.width / 2
                &&& eds.data_square.share_size == first_share_size(dv)
                &&& eds.data_square.cached_row_roots is None
                &&& eds.data_square.cached_col_roots is None
                &&& forall|i: int, j: int|
                    0 <= i < eds.data_square.width && 0 <= j < eds.data_square.width
                        ==> #[trigger] eds.data_square.cell(i, j) == dv[i * eds.data_square.width
                        + j]
            }),
    {
        let max = codec.max_chunks();
        let len = data.len();
        let too_many = if max > usize::MAX / 4 {
            false
        } else {
            len > 4 * max
        };
        if too_many {
            return Err(Error::TooManyChunks);
        }
        proof {
            if max > usize::MAX / 4 {
                lemma_fundamental_div_mod(usize::MAX as int, 4);
                assert(4 * (max as int) >= 4 * (usize::MAX as int / 4) + 4);
            }
            assert(data@.len() <= 4 * codec.max_chunks_spec());
        }
        let share_size = get_share_size(&data);
        match codec.validate_chunk_size(share_size) {
            Ok(()) => {},
            Err(e) => {
                return Err(e);
            },
        }
        let ghost dv = data.deep_view();
        let ghost n = data@.len() as nat;
        let ds = match DataSquare::<T>::new(data, share_size) {
            Ok(d) => d,
            Err(e) => {
                proof {
                    if is_perfect_square(n) {
                        let v = choose|w: nat| square_of(w) == n;
                        lemma_nat_sqrt(n, v);
                    }
                }
                return Err(e);
            },
        };
        let width = ds.width();
        proof {
            lemma_nat_sqrt(n, width as nat);
        }
        match validate_eds_width(width) {
            Ok(()) => {},
            Err(e) => {
                return Err(e);
            },
        }
        let original_data_width = width / 2;
        Ok(ExtendedDataSquare { data_square: ds, codec, original_data_width })
    }

    /// Memoized roots of all rows; `IncompleteAxis` if any row has an unset
    /// share.
    pub fn row_roots(&mut self) -> (r: Result<Vec<Vec<u8>>, Error>)
        requires
            old(self).wf(),
        ensures
            final (self).wf(),
            final (self).data_square.width == old(self).data_square.width,
            final (self).data_square.share_size == old(self).data_square.share_size,
            final (self).original_data_width == old(self).original_data_width,
            final (self).codec == old(self).codec,
            forall|rr: int, cc: int|
                0 <= rr < old(self).data_square.width && 0 <= cc < old(self).data_square.width
                    ==> #[trigger] final (self).data_square.cell(rr, cc) == old(self).data_square.cell(rr, cc),
            r.is_ok() <==> (forall|i: int|
                0 <= i < old(self).data_square.width ==> old(self).data_square.row_complete(i)),
            r matches Ok(roots) ==> ({
                &&& roots@.len() == old(self).data_square.width
                &&& forall|i: int|
                    0 <= i < old(self).data_square.width ==> (#[trigger] roots@[i])@ == old(self).data_square.row_root(i)
            }),
            r.is_err() ==> r matches Err(Error::IncompleteAxis { axis: Axis::Row }),
    {
        self.data_square.row_roots()
    }

    /// Memoized roots of all columns; `IncompleteAxis` if any column has an
    /// unset share.
    pub fn col_roots(&mut self) -> (r: Result<Vec<Vec<u8>>, Error>)
        requires
            old(self).wf(),
        ensures
            final (self).wf(),
            final (self).data_square.width == old(self).data_square.width,
            final (self).data_square.share_size == old(self).data_square.share_size,
            final (self).original_data_width == old(self).original_data_width,
            final (self).codec == old(self).codec,
            forall|rr: int, cc: int|
                0 <= rr < old(self).data_square.width && 0 <= cc < old(self).data_square.width
                    ==> #[trigger] final (self).data_square.cell(rr, cc) == old(self).data_square.cell(rr, cc),
            r.is_ok() <==> (forall|j: int|
                0 <= j < old(self).data_square.width ==> old(self).data_square.col_complete(j)),
            r matches Ok(roots) ==> ({
                &&& roots@.len() == old(self).data_square.width
                &&& forall|j: int|
                    0 <= j < old(self).data_square.width ==> (#[trigger] roots@[j])@ == old(self).data_square.col_root(j)
            }),
            r.is_err() ==> r matches Err(Error::IncompleteAxis { axis: Axis::Col }),
    {
        self.data_square.col_roots()
    }

    /// All shares in row-major order, without side effects.
    pub fn flattened(&self) -> (r: Vec<Vec<u8>>)
        requires
            self.wf(),
        ensures
            r@.len() == self.data_square.width * self.data_square.width,
            forall|rr: int, cc: int|
                0 <= rr < self.data_square.width && 0 <= cc < self.data_square.width
                    ==> #[trigger] r.deep_view()[rr * self.data_square.width + cc]
                    == self.data_square.cell(rr, cc),
    {
        self.data_square.flattened()
    }

    /// The extended square's width.
    pub fn width(&self) -> (r: usize)
        ensures
            r == self.data_square.width,
    {
        self.data_square.width()
    }

    /// The width of the original data square, before extension.
    pub fn original_data_width(&self) -> (r: usize)
        ensures
            r == self.original_data_width,
    {
        self.original_data_width
    }

    /// Write one cell; see [`DataSquare::set_cell`].
    pub fn set_cell(&mut self, row_idx: usize, col_idx: usize, data: Vec<u8>) -> (r: Result<
        (),
        Error,
    >)
        requires
            old(self).wf(),
        ensures
            final (self).wf(),
            final (self).data_square.width == old(self).data_square.width,
            final (self).data_square.share_size == old(self).data_square.share_size,
            final (self).original_data_width == old(self).original_data_width,
            final (self).codec == old(self).codec,
            (r matches Err(Error::InvalidChunkSize)) <==> !(row_idx < old(self).data_square.width
                && col_idx < old(self).data_square.width),
            (r matches Err(Error::UnevenChunks)) <==> (row_idx < old(self).data_square.width
                && col_idx < old(self).data_square.width && data@.len() != 0 && data@.len() != old(self).data_square.share_size),
            r.is_ok() <==> (row_idx < old(self).data_square.width && col_idx < old(self).data_square.width && (data@.len() == 0 || data@.len() == old(self).data_square.share_size)),
            r.is_ok() ==> ({
                &&& final (self).data_square.cell(row_idx as int, col_idx as int) == data@
                &&& (forall|rr: int, cc: int|
                    0 <= rr < old(self).data_square.width && 0 <= cc < old(self).data_square.width
                        && !(rr == row_idx && cc == col_idx) ==> #[trigger] final (self).data_square.cell(rr, cc) == old(self).data_square.cell(rr, cc))
                &&& final (self).data_square.cached_row_roots is None
                &&& final (self).data_square.cached_col_roots is None
            }),
            r.is_err() ==> *final (self) == *old(self),
    {
        self.data_square.set_cell(row_idx, col_idx, data)
    }

    /// Read one cell; see [`DataSquare::get_cell`].
    pub fn get_cell(&self, row_idx: usize, col_idx: usize) -> (r: Result<&Vec<u8>, Error>)
        requires
            self.wf(),
        ensures
            r.is_ok() <==> (row_idx < self.data_square.width && col_idx
                < self.data_square.width),
            (r matches Err(Error::InvalidChunkSize)) <==> !(row_idx < self.data_square.width
                && col_idx < self.data_square.width),
            r matches Ok(share) ==> share@ == self.data_square.cell(
                row_idx as int,
                col_idx as int,
            ),
    {
        self.data_square.get_cell(row_idx, col_idx)
    }

    /// The crossword repair algorithm. Alternates row and column passes in
    /// ascending index order: any axis with at least k of its 2k shares known
    /// is decoded, its root is recomputed and compared against the trusted
    /// root, and on a match the recovered shares are committed to the square.
    /// Solving a row can unblock columns and vice versa, so passes repeat
    /// until the whole square is solved and verified (`Ok`), a reconstructed
    /// axis contradicts its trusted root (`ByzantineData`, fail-fast in scan
    /// order), or a full pass makes no progress (`UnrepairableDataSquare`).
    /// Shares that were present at entry are never altered.
    #[verifier::loop_isolation(false)]
    pub fn repair(&mut self, row_roots: &Vec<Vec<u8>>, col_roots: &Vec<Vec<u8>>) -> (r: Result<
        (),
        Error,
    >)
        requires
            old(self).wf(),
        ensures
            final (self).wf(),
            final (self).data_square.width == old(self).data_square.width,
            final (self).data_square.share_size == old(self).data_square.share_size,
            final (self).original_data_width == old(self).original_data_width,
            final (self).codec == old(self).codec,
            forall|r2: int, c2: int|
                0 <= r2 < old(self).data_square.width && 0 <= c2 < old(self).data_square.width && (
                #[trigger] old(self).data_square.cell(r2, c2)).len() > 0 ==> final (self).data_square.cell(r2, c2) == old(self).data_square.cell(r2, c2),
            (r matches Err(Error::InvalidChunkSize)) <==> !(row_roots@.len() == old(self).data_square.width && col_roots@.len() == old(self).data_square.width),
            (r matches Err(Error::InvalidChunkSize)) ==> *final (self) == *old(self),
            r.is_ok() ==> (forall|i: int|
                0 <= i < old(self).data_square.width ==> #[trigger] final (self).data_square.row_complete(i)),
            r.is_ok() ==> (forall|i: int|
                0 <= i < old(self).data_square.width ==> #[trigger] final (self).data_square.col_complete(i)),
            r.is_ok() ==> (forall|i: int|
                0 <= i < old(self).data_square.width ==> #[trigger] final (self).data_square.row_root(i) == row_roots@[i]@),
            r.is_ok() ==> (forall|i: int|
                0 <= i < old(self).data_square.width ==> #[trigger] final (self).data_square.col_root(i) == col_roots@[i]@),
            (r matches Err(Error::UnrepairableDataSquare)) ==> ({
                let w = old(self).data_square.width;
                let k = old(self).original_data_width;
                &&& (exists|r2: int, c2: int|
                    0 <= r2 < w && 0 <= c2 < w && (#[trigger] final (self).data_square.cell(
                        r2,
                        c2,
                    )).len() == 0)
                &&& (forall|i2: int|
                    0 <= i2 < w && !(#[trigger] final (self).data_square.row_complete(i2))
                        ==> axis_stalled(
                        old(self).codec,
                        k,
                        final (self).data_square.row_seq(i2),
                    ))
                &&& (forall|j2: int|
                    0 <= j2 < w && !(#[trigger] final (self).data_square.col_complete(j2))
                        ==> axis_stalled(
                        old(self).codec,
                        k,
                        final (self).data_square.col_seq(j2),
                    ))
            }),
            r matches Err(Error::ByzantineData { axis, index, shares }) ==> ({
                let w = old(self).data_square.width;
                &&& index < w
                &&& shares matches Some(sv)
                &&& sv@.len() == w
                &&& (forall|m: int| 0 <= m < sv@.len() ==> (#[trigger] sv@[m])@.len() > 0)
                &&& (axis == Axis::Row ==> T::root_model(Axis::Row, index, sv.deep_view())
                    != row_roots@[index as int]@ && (forall|c2: int|
                    0 <= c2 < w && (#[trigger] final (self).data_square.cell(
                        index as int,
                        c2,
                    )).len() > 0 ==> sv@[c2]@ == final (self).data_square.cell(index as int, c2)))
                &&& (axis == Axis::Col ==> T::root_model(Axis::Col, index, sv.deep_view())
                    != col_roots@[index as int]@ && (forall|r2: int|
                    0 <= r2 < w && (#[trigger] final (self).data_square.cell(
                        r2,
                        index as int,
                    )).len() > 0 ==> sv@[r2]@ == final (self).data_square.cell(r2, index as int)))
                &&& (axis == Axis::Row ==> (final (self).data_square.row_complete(index as int)
                    ==> sv.deep_view() == final (self).data_square.row_seq(index as int)))
                &&& (axis == Axis::Row ==> (!final (self).data_square.row_complete(index as int)
                    ==> old(self).codec.decode_ok(final (self).data_square.row_seq(index as int))
                        && sv.deep_view() == old(self).codec.decoded(
                        final (self).data_square.row_seq(index as int),
                    )))
                &&& (axis == Axis::Col ==> (final (self).data_square.col_complete(index as int)
                    ==> sv.deep_view() == final (self).data_square.col_seq(index as int)))
                &&& (axis == Axis::Col ==> (!final (self).data_square.col_complete(index as int)
                    ==> old(self).codec.decode_ok(final (self).data_square.col_seq(index as int))
                        && sv.deep_view() == old(self).codec.decoded(
                        final (self).data_square.col_seq(index as int),
                    )))
                &&& (axis == Axis::Row ==> (forall|i2: int|
                    0 <= i2 < index && #[trigger] final (self).data_square.row_complete(i2)
                        ==> final (self).data_square.row_root(i2) == row_roots@[i2]@))
                &&& (axis == Axis::Col ==> (forall|j2: int|
                    0 <= j2 < index && #[trigger] final (self).data_square.col_complete(j2)
                        ==> final (self).data_square.col_root(j2) == col_roots@[j2]@))
            }),
            r.is_err() ==> ((r matches Err(Error::InvalidChunkSize)) || (r matches Err(
                Error::UnrepairableDataSquare,
            )) || (r matches Err(Error::ByzantineData { axis: _, index: _, shares: _ }))),
    {
        match self.pre_repair_sanity_check(row_roots, col_roots) {
            Ok(()) => {},
            Err(e) => {
                return Err(e);
            },
        }
        let w = self.data_square.width;
        let mut solved_rows = make_false_vec(w);
        let mut solved_cols = make_false_vec(w);
        let mut n_rows: usize = 0;
        let mut n_cols: usize = 0;
        loop
            invariant
                self.wf(),
                self.data_square.width == w,
                self.data_square.share_size == old(self).data_square.share_size,
                self.original_data_width == old(self).original_data_width,
                self.codec == old(self).codec,
                row_roots@.len() == w,
                col_roots@.len() == w,
                solved_rows@.len() == w,
                solved_cols@.len() == w,
                n_rows == count_true(solved_rows@),
                n_cols == count_true(solved_cols@),
                forall|ii: int|
                    0 <= ii < w && #[trigger] solved_rows@[ii] ==> self.data_square.row_complete(ii)
                        && self.data_square.row_root(ii) == row_roots@[ii]@,
                forall|jj: int|
                    0 <= jj < w && #[trigger] solved_cols@[jj] ==> self.data_square.col_complete(jj)
                        && self.data_square.col_root(jj) == col_roots@[jj]@,
                forall|r2: int, c2: int|
                    0 <= r2 < w && 0 <= c2 < w && (#[trigger] old(self).data_square.cell(
                        r2,
                        c2,
                    )).len() > 0 ==> self.data_square.cell(r2, c2) == old(self).data_square.cell(
                        r2,
                        c2,
                    ),
            decreases 2 * w - n_rows - n_cols,
        {
            proof {
                lemma_count_true_le(solved_rows@);
                lemma_count_true_le(solved_cols@);
            }
            let ghost snap = *self;
            let ghost n0r = n_rows;
            let ghost n0c = n_cols;
            let mut progress = false;
            let mut i: usize = 0;
            while i < w
                invariant
                    i <= w,
                    self.wf(),
                    self.data_square.width == w,
                    self.data_square.share_size == old(self).data_square.share_size,
                    self.original_data_width == old(self).original_data_width,
                    self.codec == old(self).codec,
                    solved_rows@.len() == w,
                    solved_cols@.len() == w,
                    n_rows == count_true(solved_rows@),
                    n_cols == count_true(solved_cols@),
                    forall|ii: int|
                        0 <= ii < w && #[trigger] solved_rows@[ii]
                            ==> self.data_square.row_complete(ii) && self.data_square.row_root(ii)
                            == row_roots@[ii]@,
                    forall|jj: int|
                        0 <= jj < w && #[trigger] solved_cols@[jj]
                            ==> self.data_square.col_complete(jj) && self.data_square.col_root(jj)
                            == col_roots@[jj]@,
                    forall|r2: int, c2: int|
                        0 <= r2 < w && 0 <= c2 < w && (#[trigger] old(self).data_square.cell(
                            r2,
                            c2,
                        )).len() > 0 ==> self.data_square.cell(r2, c2) == old(self).data_square.cell(r2, c2),
                    forall|ii: int|
                        0 <= ii < i && !(#[trigger] solved_rows@[ii]) ==> (exists|cc: int|
                            0 <= cc < w && (#[trigger] self.data_square.cell(ii, cc)).len() == 0),
                    !progress ==> *self == snap && n_rows == n0r && n_cols == n0c,
                    !progress ==> (forall|ii: int|
                        0 <= ii < i && !(#[trigger] solved_rows@[ii]) ==> axis_stalled(
                            old(self).codec,
                            old(self).original_data_width,
                            self.data_square.row_seq(ii),
                        )),
                    progress ==> n_rows + n_cols > n0r + n0c,
                decreases w - i,
            {
                if !solved_rows[i] {
                    let ghost prev = *self;
                    let outcome = self.try_solve_row(i, row_roots);
                    match outcome {
                        AxisOutcome::Solved => {
                            proof {
                                lemma_row_write_transfer(
                                    prev.data_square,
                                    self.data_square,
                                    i as int,
                                    solved_rows@,
                                    solved_cols@,
                                    row_roots.deep_view(),
                                    col_roots.deep_view(),
                                );
                                lemma_count_true_update(solved_rows@, i as int);
                                lemma_count_true_le(solved_rows@);
                                assert forall|ii: int|
                                    0 <= ii < i && !(#[trigger] solved_rows@[ii]) implies (
                                exists|cc: int|
                                    0 <= cc < w && (#[trigger] self.data_square.cell(
                                        ii,
                                        cc,
                                    )).len() == 0) by {
                                    let cc = choose|cc: int|
                                        0 <= cc < w && (#[trigger] prev.data_square.cell(
                                            ii,
                                            cc,
                                        )).len() == 0;
                                    assert(self.data_square.cell(ii, cc)
                                        == prev.data_square.cell(ii, cc));
                                }
                            }
                            solved_rows.set(i, true);
                            n_rows += 1;
                            progress = true;
                        },
                        AxisOutcome::Stuck => {
                            proof {
                                let cc = choose|c2: int|
                                    0 <= c2 < w && (#[trigger] prev.data_square.cell(
                                        i as int,
                                        c2,
                                    )).len() == 0;
                                assert(self.data_square.cell(i as int, cc).len() == 0);
                                assert(axis_stalled(
                                    old(self).codec,
                                    old(self).original_data_width,
                                    self.data_square.row_seq(i as int),
                                ));
                            }
                        },
                        AxisOutcome::Mismatch(sv) => {
                            proof {
                                assert forall|i2: int|
                                    0 <= i2 < i && #[trigger] self.data_square.row_complete(
                                        i2,
                                    ) implies self.data_square.row_root(i2)
                                    == row_roots@[i2]@ by {
                                    if !solved_rows@[i2] {
                                        let cc = choose|cc: int|
                                            0 <= cc < w && (#[trigger] self.data_square.cell(
                                                i2,
                                                cc,
                                            )).len() == 0;
                                        assert(self.data_square.cell(i2, cc).len() > 0);
                                        assert(false);
                                    }
                                }
                            }
                            return Err(
                                Error::ByzantineData {
                                    axis: Axis::Row,
                                    index: i,
                                    shares: Some(sv),
                                },
                            );
                        },
                    }
                }
                i += 1;
            }
            let mut j: usize = 0;
            while j < w
                invariant
                    j <= w,
                    self.wf(),
                    self.data_square.width == w,
                    self.data_square.share_size == old(self).data_square.share_size,
                    self.original_data_width == old(self).original_data_width,
                    self.codec == old(self).codec,
                    solved_rows@.len() == w,
                    solved_cols@.len() == w,
                    n_rows == count_true(solved_rows@),
                    n_cols == count_true(solved_cols@),
                    forall|ii: int|
                        0 <= ii < w && #[trigger] solved_rows@[ii]
                            ==> self.data_square.row_complete(ii) && self.data_square.row_root(ii)
                            == row_roots@[ii]@,
                    forall|jj: int|
                        0 <= jj < w && #[trigger] solved_cols@[jj]
                            ==> self.data_square.col_complete(jj) && self.data_square.col_root(jj)
                            == col_roots@[jj]@,
                    forall|r2: int, c2: int|
                        0 <= r2 < w && 0 <= c2 < w && (#[trigger] old(self).data_square.cell(
                            r2,
                            c2,
                        )).len() > 0 ==> self.data_square.cell(r2, c2) == old(self).data_square.cell(r2, c2),
                    forall|jj: int|
                        0 <= jj < j && !(#[trigger] solved_cols@[jj]) ==> (exists|r2: int|
                            0 <= r2 < w && (#[trigger] self.data_square.cell(r2, jj)).len() == 0),
                    !progress ==> *self == snap && n_rows == n0r && n_cols == n0c,
                    !progress ==> (forall|ii: int|
                        0 <= ii < w && !(#[trigger] solved_rows@[ii]) ==> (exists|cc: int|
                            0 <= cc < w && (#[trigger] self.data_square.cell(ii, cc)).len() == 0)),
                    !progress ==> (forall|ii: int|
                        0 <= ii < w && !(#[trigger] solved_rows@[ii]) ==> axis_stalled(
                            old(self).codec,
                            old(self).original_data_width,
                            self.data_square.row_seq(ii),
                        )),
                    !progress ==> (forall|jj: int|
                        0 <= jj < j && !(#[trigger] solved_cols@[jj]) ==> axis_stalled(
                            old(self).codec,
                            old(self).original_data_width,
                            self.data_square.col_seq(jj),
                        )),
                    progress ==> n_rows + n_cols > n0r + n0c,
                decreases w - j,
            {
                if !solved_cols[j] {
                    let ghost prev = *self;
                    let outcome = self.try_solve_col(j, col_roots);
                    match outcome {
                        AxisOutcome::Solved => {
                            proof {
                                lemma_col_write_transfer(
                                    prev.data_square,
                                    self.data_square,
                                    j as int,
                                    solved_rows@,
                                    solved_cols@,
                                    row_roots.deep_view(),
                                    col_roots.deep_view(),
                                );
                                lemma_count_true_update(solved_cols@, j as int);
                                lemma_count_true_le(solved_cols@);
                                assert forall|jj: int|
                                    0 <= jj < j && !(#[trigger] solved_cols@[jj]) implies (
                                exists|r2: int|
                                    0 <= r2 < w && (#[trigger] self.data_square.cell(
                                        r2,
                                        jj,
                                    )).len() == 0) by {
                                    let r2 = choose|r2: int|
                                        0 <= r2 < w && (#[trigger] prev.data_square.cell(
                                            r2,
                                            jj,
                                        )).len() == 0;
                                    assert(self.data_square.cell(r2, jj)
                                        == prev.data_square.cell(r2, jj));
                                }
                            }
                            solved_cols.set(j, true);
                            n_cols += 1;
                            progress = true;
                        },
                        AxisOutcome::Stuck => {
                            proof {
                                let r2 = choose|r2: int|
                                    0 <= r2 < w && (#[trigger] prev.data_square.cell(
                                        r2,
                                        j as int,
                                    )).len() == 0;
                                assert(self.data_square.cell(r2, j as int).len() == 0);
                                assert(axis_stalled(
                                    old(self).codec,
                                    old(self).original_data_width,
                                    self.data_square.col_seq(j as int),
                                ));
                            }
                        },
                        AxisOutcome::Mismatch(sv) => {
                            proof {
                                assert forall|j2: int|
                                    0 <= j2 < j && #[trigger] self.data_square.col_complete(
                                        j2,
                                    ) implies self.data_square.col_root(j2)
                                    == col_roots@[j2]@ by {
                                    if !solved_cols@[j2] {
                                        let r2 = choose|r2: int|
                                            0 <= r2 < w && (#[trigger] self.data_square.cell(
                                                r2,
                                                j2,
                                            )).len() == 0;
                                        assert(self.data_square.cell(r2, j2).len() > 0);
                                        assert(false);
                                    }
                                }
                            }
                            return Err(
                                Error::ByzantineData {
                                    axis: Axis::Col,
                                    index: j,
                                    shares: Some(sv),
                                },
                            );
                        },
                    }
                }
                j += 1;
            }
            if n_rows == w && n_cols == w {
                proof {
                    lemma_count_true_all(solved_rows@);
                    lemma_count_true_all(solved_cols@);
                    assert forall|ii: int|
                        0 <= ii < w implies #[trigger] self.data_square.row_complete(ii) by {
                        assert(solved_rows@[ii]);
                    }
                    assert forall|ii: int|
                        0 <= ii < w implies #[trigger] self.data_square.col_complete(ii) by {
                        assert(solved_cols@[ii]);
                    }
                    assert forall|ii: int|
                        0 <= ii < w implies #[trigger] self.data_square.row_root(ii)
                        == row_roots@[ii]@ by {
                        assert(solved_rows@[ii]);
                    }
                    assert forall|ii: int|
                        0 <= ii < w implies #[trigger] self.data_square.col_root(ii)
                        == col_roots@[ii]@ by {
                        assert(solved_cols@[ii]);
                    }
                }
                return Ok(());
            }
            if !progress {
                proof {
                    lemma_count_true_le(solved_rows@);
                    lemma_count_true_le(solved_cols@);
                    if n_rows < w {
                        lemma_count_true_exists_false(solved_rows@);
                        let ii = choose|ii: int| 0 <= ii < w && !solved_rows@[ii];
                        let cc = choose|cc: int|
                            0 <= cc < w && (#[trigger] self.data_square.cell(ii, cc)).len() == 0;
                        assert(self.data_square.cell(ii, cc).len() == 0);
                    } else {
                        lemma_count_true_exists_false(solved_cols@);
                        let jj = choose|jj: int| 0 <= jj < w && !solved_cols@[jj];
                        let r2 = choose|r2: int|
                            0 <= r2 < w && (#[trigger] self.data_square.cell(r2, jj)).len() == 0;
                        assert(self.data_square.cell(r2, jj).len() == 0);
                    }
                    assert forall|i2: int|
                        0 <= i2 < w && !(#[trigger] self.data_square.row_complete(
                            i2,
                        )) implies axis_stalled(
                        old(self).codec,
                        old(self).original_data_width,
                        self.data_square.row_seq(i2),
                    ) by {
                        if solved_rows@[i2] {
                            assert(self.data_square.row_complete(i2));
                        }
                        assert(!solved_rows@[i2]);
                    }
                    assert forall|j2: int|
                        0 <= j2 < w && !(#[trigger] self.data_square.col_complete(
                            j2,
                        )) implies axis_stalled(
                        old(self).codec,
                        old(self).original_data_width,
                        self.data_square.col_seq(j2),
                    ) by {
                        if solved_cols@[j2] {
                            assert(self.data_square.col_complete(j2));
                        }
                        assert(!solved_cols@[j2]);
                    }
                }
                return Err(Error::UnrepairableDataSquare);
            }
            proof {
                lemma_count_true_le(solved_rows@);
                lemma_count_true_le(solved_cols@);
            }
        }
    }

    /// Both trusted root lists must have exactly one root per axis.
    fn pre_repair_sanity_check(&mut self, row_roots: &Vec<Vec<u8>>, col_roots: &Vec<Vec<u8>>) -> (r:
        Result<(), Error>)
        requires
            old(self).wf(),
        ensures
            *final (self) == *old(self),
            r.is_ok() <==> (row_roots@.len() == old(self).data_square.width && col_roots@.len()
                == old(self).data_square.width),
            !r.is_ok() ==> r matches Err(Error::InvalidChunkSize),
    {
        if row_roots.len() != self.data_square.width || col_roots.len() != self.data_square.width {
            return Err(Error::InvalidChunkSize);
        }
        Ok(())
    }
}

/// Writing into one row, while keeping its already-present shares, preserves
/// every other row and every complete column, together with their roots.
proof fn lemma_row_write_transfer<T: Tree>(
    prev: DataSquare<T>,
    cur: DataSquare<T>,
    i: int,
    solved_rows: Seq<bool>,
    solved_cols: Seq<bool>,
    trusted_rows: Seq<Seq<u8>>,
    trusted_cols: Seq<Seq<u8>>,
)
    requires
        0 <= i < prev.width,
        cur.width == prev.width,
        forall|r2: int, c2: int|
            0 <= r2 < prev.width && 0 <= c2 < prev.width && r2 != i ==> #[trigger] cur.cell(r2, c2)
                == prev.cell(r2, c2),
        forall|c2: int|
            0 <= c2 < prev.width && (#[trigger] prev.cell(i, c2)).len() > 0 ==> cur.cell(i, c2)
                == prev.cell(i, c2),
        solved_rows.len() == prev.width,
        solved_cols.len() == prev.width,
        forall|ii: int|
            0 <= ii < prev.width && #[trigger] solved_rows[ii] ==> prev.row_complete(ii)
                && prev.row_root(ii) == trusted_rows[ii],
        forall|jj: int|
            0 <= jj < prev.width && #[trigger] solved_cols[jj] ==> prev.col_complete(jj)
                && prev.col_root(jj) == trusted_cols[jj],
    ensures
        forall|ii: int|
            0 <= ii < prev.width && ii != i && #[trigger] solved_rows[ii] ==> cur.row_complete(ii)
                && cur.row_root(ii) == trusted_rows[ii],
        forall|jj: int|
            0 <= jj < prev.width && #[trigger] solved_cols[jj] ==> cur.col_complete(jj)
                && cur.col_root(jj) == trusted_cols[jj],
{
    let w = prev.width;
    assert forall|ii: int|
        0 <= ii < w && ii != i && #[trigger] solved_rows[ii] implies cur.row_complete(ii)
        && cur.row_root(ii) == trusted_rows[ii] by {
        assert forall|c2: int| 0 <= c2 < w implies (#[trigger] cur.cell(ii, c2)).len() > 0 by {
            assert(cur.cell(ii, c2) == prev.cell(ii, c2));
            assert(prev.cell(ii, c2).len() > 0);
        }
        assert(cur.row_seq(ii) =~= prev.row_seq(ii));
    }
    assert forall|jj: int|
        0 <= jj < w && #[trigger] solved_cols[jj] implies cur.col_complete(jj) && cur.col_root(jj)
        == trusted_cols[jj] by {
        assert forall|r2: int| 0 <= r2 < w implies #[trigger] cur.cell(r2, jj) == prev.cell(
            r2,
            jj,
        ) by {
            if r2 == i {
                assert(prev.cell(i, jj).len() > 0);
            }
        }
        assert forall|r2: int| 0 <= r2 < w implies (#[trigger] cur.cell(r2, jj)).len() > 0 by {
            assert(prev.cell(r2, jj).len() > 0);
        }
        assert(cur.col_seq(jj) =~= prev.col_seq(jj));
    }
}

/// Writing into one column, while keeping its already-present shares,
/// preserves every other column and every complete row, with their roots.
proof fn lemma_col_write_transfer<T: Tree>(
    prev: DataSquare<T>,
    cur: DataSquare<T>,
    j: int,
    solved_rows: Seq<bool>,
    solved_cols: Seq<bool>,
    trusted_rows: Seq<Seq<u8>>,
    trusted_cols: Seq<Seq<u8>>,
)
    requires
        0 <= j < prev.width,
        cur.width == prev.width,
        forall|r2: int, c2: int|
            0 <= r2 < prev.width && 0 <= c2 < prev.width && c2 != j ==> #[trigger] cur.cell(r2, c2)
                == prev.cell(r2, c2),
        forall|r2: int|
            0 <= r2 < prev.width && (#[trigger] prev.cell(r2, j)).len() > 0 ==> cur.cell(r2, j)
                == prev.cell(r2, j),
        solved_rows.len() == prev.width,
        solved_cols.len() == prev.width,
        forall|ii: int|
            0 <= ii < prev.width && #[trigger] solved_rows[ii] ==> prev.row_complete(ii)
                && prev.row_root(ii) == trusted_rows[ii],
        forall|jj: int|
            0 <= jj < prev.width && #[trigger] solved_cols[jj] ==> prev.col_complete(jj)
                && prev.col_root(jj) == trusted_cols[jj],
    ensures
        forall|ii: int|
            0 <= ii < prev.width && #[trigger] solved_rows[ii] ==> cur.row_complete(ii)
                && cur.row_root(ii) == trusted_rows[ii],
        forall|jj: int|
            0 <= jj < prev.width && jj != j && #[trigger] solved_cols[jj] ==> cur.col_complete(jj)
                && cur.col_root(jj) == trusted_cols[jj],
{
    let w = prev.width;
    assert forall|jj: int|
        0 <= jj < w && jj != j && #[trigger] solved_cols[jj] implies cur.col_complete(jj)
        && cur.col_root(jj) == trusted_cols[jj] by {
        assert forall|r2: int| 0 <= r2 < w implies (#[trigger] cur.cell(r2, jj)).len() > 0 by {
            assert(cur.cell(r2, jj) == prev.cell(r2, jj));
            assert(prev.cell(r2, jj).len() > 0);
        }
        assert(cur.col_seq(jj) =~= prev.col_seq(jj));
    }
    assert forall|ii: int|
        0 <= ii < w && #[trigger] solved_rows[ii] implies cur.row_complete(ii) && cur.row_root(ii)
        == trusted_rows[ii] by {
        assert forall|c2: int| 0 <= c2 < w implies #[trigger] cur.cell(ii, c2) == prev.cell(
            ii,
            c2,
        ) by {
            if c2 == j {
                assert(prev.cell(ii, j).len() > 0);
            }
        }
        assert forall|c2: int| 0 <= c2 < w implies (#[trigger] cur.cell(ii, c2)).len() > 0 by {
            assert(prev.cell(ii, c2).len() > 0);
        }
        assert(cur.row_seq(ii) =~= prev.row_seq(ii));
    }
}

/// A vector of `n` false flags.
#[verifier::loop_isolation(false)]
fn make_false_vec(n: usize) -> (v: Vec<bool>)
    ensures
        v@.len() == n,
        forall|i: int| 0 <= i < n ==> !v@[i],
        count_true(v@) == 0,
{
    let mut v: Vec<bool> = Vec::new();
    let mut i: usize = 0;
    while i < n
        invariant
            i <= n,
            v@.len() == i,
            forall|p: int| 0 <= p < i ==> !v@[p],
            count_true(v@) == 0,
        decreases n - i,
    {
        let ghost before = v@;
        v.push(false);
        proof {
            assert(v@.drop_last() =~= before);
        }
        i += 1;
    }
    v
}

impl<C: Codec, T: Tree> ExtendedDataSquare<C, T> {
    /// Try to solve row `i`: verify a complete row against its trusted root,
    /// or decode it if at least k of its 2k shares are known and then verify
    /// the decoded row.
    #[verifier::loop_isolation(false)]
    fn try_solve_row(&mut self, i: usize, trusted: &Vec<Vec<u8>>) -> (r: AxisOutcome)
        requires
            old(self).wf(),
            i < old(self).data_square.width,
            trusted@.len() == old(self).data_square.width,
        ensures
            final (self).wf(),
            final (self).data_square.width == old(self).data_square.width,
            final (self).data_square.share_size == old(self).data_square.share_size,
            final (self).original_data_width == old(self).original_data_width,
            final (self).codec == old(self).codec,
            forall|r2: int, c2: int|
                0 <= r2 < old(self).data_square.width && 0 <= c2 < old(self).data_square.width && r2
                    != i ==> #[trigger] final (self).data_square.cell(r2, c2) == old(self).data_square.cell(r2, c2),
            forall|c2: int|
                0 <= c2 < old(self).data_square.width && (#[trigger] old(self).data_square.cell(
                    i as int,
                    c2,
                )).len() > 0 ==> final (self).data_square.cell(i as int, c2) == old(self).data_square.cell(i as int, c2),
            r is Solved ==> final (self).data_square.row_complete(i as int) && final (self).data_square.row_root(i as int) == trusted@[i as int]@,
            r is Stuck ==> *final (self) == *old(self) && (exists|c2: int|
                0 <= c2 < old(self).data_square.width && (#[trigger] old(self).data_square.cell(
                    i as int,
                    c2,
                )).len() == 0) && axis_stalled(
                old(self).codec,
                old(self).original_data_width,
                old(self).data_square.row_seq(i as int),
            ),
            r matches AxisOutcome::Mismatch(sv) ==> ({
                &&& *final (self) == *old(self)
                &&& sv@.len() == old(self).data_square.width
                &&& (forall|m: int| 0 <= m < sv@.len() ==> (#[trigger] sv@[m])@.len() > 0)
                &&& T::root_model(Axis::Row, i, sv.deep_view()) != trusted@[i as int]@
                &&& (forall|c2: int|
                    0 <= c2 < old(self).data_square.width && (#[trigger] old(self).data_square.cell(i as int, c2)).len() > 0 ==> sv@[c2]@ == old(self).data_square.cell(i as int, c2))
                &&& (old(self).data_square.row_complete(i as int) ==> sv.deep_view() == old(
                    self,
                ).data_square.row_seq(i as int))
                &&& (!old(self).data_square.row_complete(i as int) ==> old(self).codec.decode_ok(
                    old(self).data_square.row_seq(i as int),
                ) && sv.deep_view() == old(self).codec.decoded(
                    old(self).data_square.row_seq(i as int),
                ))
            }),
    {
        let w = self.data_square.width;
        let k = self.original_data_width;
        let mut temp: Vec<Vec<u8>> = Vec::new();
        let mut known: usize = 0;
        let mut c: usize = 0;
        while c < w
            invariant
                c <= w,
                temp@.len() == c,
                known <= c,
                forall|cc: int|
                    0 <= cc < c ==> (#[trigger] temp@[cc])@ == self.data_square.cell(i as int, cc),
                (known == c) <==> (forall|cc: int|
                    0 <= cc < c ==> (#[trigger] self.data_square.cell(i as int, cc)).len() > 0),
                known < c ==> (exists|cc: int|
                    0 <= cc < c && (#[trigger] self.data_square.cell(i as int, cc)).len() == 0),
                known > 0 ==> (exists|cc: int|
                    0 <= cc < c && (#[trigger] self.data_square.cell(i as int, cc)).len() > 0),
                known == known_count(self.data_square.row_seq(i as int).take(c as int)),
            decreases w - c,
        {
            let share = clone_share(&self.data_square.square_row[i][c]);
            proof {
                assert(share@ == self.data_square.cell(i as int, c as int));
                lemma_known_count_take_step(self.data_square.row_seq(i as int), c as int);
            }
            if share.len() > 0 {
                known += 1;
            }
            temp.push(share);
            c += 1;
        }
        proof {
            assert(self.data_square.row_seq(i as int).take(w as int) =~= self.data_square.row_seq(
                i as int,
            ));
        }
        if known == w {
            let root = compute_axis_root::<T>(Axis::Row, i, &temp);
            proof {
                assert(temp.deep_view() =~= self.data_square.row_seq(i as int));
                assert(old(self).data_square.row_complete(i as int));
            }
            if bytes_eq(&root, &trusted[i]) {
                return AxisOutcome::Solved;
            } else {
                return AxisOutcome::Mismatch(temp);
            }
        }
        if known >= k {
            let ghost before = temp.deep_view();
            let ghost s0 = self.data_square.share_size as nat;
            proof {
                assert forall|cc: int| 0 <= cc < w implies #[trigger] before[cc]
                    == self.data_square.cell(i as int, cc) by {}
                assert(shares_uniform(before, s0));
                let cc = choose|cc: int|
                    0 <= cc < w && (#[trigger] self.data_square.cell(i as int, cc)).len() > 0;
                assert(before[cc].len() == s0 && s0 > 0);
                assert(before =~= self.data_square.row_seq(i as int));
                let ce = choose|ce: int|
                    0 <= ce < w && (#[trigger] self.data_square.cell(i as int, ce)).len() == 0;
                assert(!old(self).data_square.row_complete(i as int));
            }
            let decoded = self.codec.decode(&mut temp);
            match decoded {
                Ok(()) => {
                    proof {
                        assert(old(self).codec.decode_ok(
                            old(self).data_square.row_seq(i as int),
                        ));
                        assert(temp.deep_view() == old(self).codec.decoded(
                            old(self).data_square.row_seq(i as int),
                        ));
                        assert(all_nonempty_len(temp.deep_view(), s0));
                        assert(temp@.len() == w);
                        assert forall|c2: int| 0 <= c2 < w implies (#[trigger] temp@[c2])@.len()
                            == self.data_square.share_size by {
                            assert(temp.deep_view()[c2].len() == s0);
                        }
                        assert forall|c2: int|
                            0 <= c2 < w && (#[trigger] old(self).data_square.cell(
                                i as int,
                                c2,
                            )).len() > 0 implies temp@[c2]@ == old(self).data_square.cell(
                            i as int,
                            c2,
                        ) by {
                            assert(before[c2] == old(self).data_square.cell(i as int, c2));
                            assert(temp.deep_view()[c2] == before[c2]);
                        }
                    }
                    let root = compute_axis_root::<T>(Axis::Row, i, &temp);
                    if bytes_eq(&root, &trusted[i]) {
                        self.data_square.fill_row(i, &temp);
                        proof {
                            assert(self.data_square.row_seq(i as int) =~= temp.deep_view());
                            assert forall|c2: int| 0 <= c2 < w implies (
                            #[trigger] self.data_square.cell(i as int, c2)).len() > 0 by {
                                assert(temp.deep_view()[c2].len() == s0);
                            }
                            assert forall|c2: int|
                                0 <= c2 < w && (#[trigger] old(self).data_square.cell(
                                    i as int,
                                    c2,
                                )).len() > 0 implies self.data_square.cell(i as int, c2) == old(
                                self,
                            ).data_square.cell(i as int, c2) by {
                                assert(before[c2] == old(self).data_square.cell(i as int, c2));
                                assert(temp.deep_view()[c2] == before[c2]);
                                assert(self.data_square.cell(i as int, c2) == temp@[c2]@);
                            }
                        }
                        return AxisOutcome::Solved;
                    } else {
                        return AxisOutcome::Mismatch(temp);
                    }
                },
                Err(_) => {
                    proof {
                        assert(!old(self).codec.decode_ok(
                            old(self).data_square.row_seq(i as int),
                        ));
                    }
                    return AxisOutcome::Stuck;
                },
            }
        }
        AxisOutcome::Stuck
    }

    /// Try to solve column `j`, symmetrically to [`Self::try_solve_row`].
    #[verifier::loop_isolation(false)]
    fn try_solve_col(&mut self, j: usize, trusted: &Vec<Vec<u8>>) -> (r: AxisOutcome)
        requires
            old(self).wf(),
            j < old(self).data_square.width,
            trusted@.len() == old(self).data_square.width,
        ensures
            final (self).wf(),
            final (self).data_square.width == old(self).data_square.width,
            final (self).data_square.share_size == old(self).data_square.share_size,
            final (self).original_data_width == old(self).original_data_width,
            final (self).codec == old(self).codec,
            forall|r2: int, c2: int|
                0 <= r2 < old(self).data_square.width && 0 <= c2 < old(self).data_square.width && c2
                    != j ==> #[trigger] final (self).data_square.cell(r2, c2) == old(self).data_square.cell(r2, c2),
            forall|r2: int|
                0 <= r2 < old(self).data_square.width && (#[trigger] old(self).data_square.cell(
                    r2,
                    j as int,
                )).len() > 0 ==> final (self).data_square.cell(r2, j as int) == old(self).data_square.cell(r2, j as int),
            r is Solved ==> final (self).data_square.col_complete(j as int) && final (self).data_square.col_root(j as int) == trusted@[j as int]@,
            r is Stuck ==> *final (self) == *old(self) && (exists|r2: int|
                0 <= r2 < old(self).data_square.width && (#[trigger] old(self).data_square.cell(
                    r2,
                    j as int,
                )).len() == 0) && axis_stalled(
                old(self).codec,
                old(self).original_data_width,
                old(self).data_square.col_seq(j as int),
            ),
            r matches AxisOutcome::Mismatch(sv) ==> ({
                &&& *final (self) == *old(self)
                &&& sv@.len() == old(self).data_square.width
                &&& (forall|m: int| 0 <= m < sv@.len() ==> (#[trigger] sv@[m])@.len() > 0)
                &&& T::root_model(Axis::Col, j, sv.deep_view()) != trusted@[j as int]@
                &&& (forall|r2: int|
                    0 <= r2 < old(self).data_square.width && (#[trigger] old(self).data_square.cell(r2, j as int)).len() > 0 ==> sv@[r2]@ == old(self).data_square.cell(r2, j as int))
                &&& (old(self).data_square.col_complete(j as int) ==> sv.deep_view() == old(
                    self,
                ).data_square.col_seq(j as int))
                &&& (!old(self).data_square.col_complete(j as int) ==> old(self).codec.decode_ok(
                    old(self).data_square.col_seq(j as int),
                ) && sv.deep_view() == old(self).codec.decoded(
                    old(self).data_square.col_seq(j as int),
                ))
            }),
    {
        let w = self.data_square.width;
        let k = self.original_data_width;
        let mut temp: Vec<Vec<u8>> = Vec::new();
        let mut known: usize = 0;
        let mut rr: usize = 0;
        while rr < w
            invariant
                rr <= w,
                temp@.len() == rr,
                known <= rr,
                forall|r2: int|
                    0 <= r2 < rr ==> (#[trigger] temp@[r2])@ == self.data_square.cell(r2, j as int),
                (known == rr) <==> (forall|r2: int|
                    0 <= r2 < rr ==> (#[trigger] self.data_square.cell(r2, j as int)).len() > 0),
                known < rr ==> (exists|r2: int|
                    0 <= r2 < rr && (#[trigger] self.data_square.cell(r2, j as int)).len() == 0),
                known > 0 ==> (exists|r2: int|
                    0 <= r2 < rr && (#[trigger] self.data_square.cell(r2, j as int)).len() > 0),
                known == known_count(self.data_square.col_seq(j as int).take(rr as int)),
            decreases w - rr,
        {
            let share = clone_share(&self.data_square.square_col[j][rr]);
            proof {
                assert(self.data_square.square_col@[j as int]@[rr as int]@
                    == self.data_square.square_row@[rr as int]@[j as int]@);
                assert(share@ == self.data_square.cell(rr as int, j as int));
                lemma_known_count_take_step(self.data_square.col_seq(j as int), rr as int);
            }
            if share.len() > 0 {
                known += 1;
            }
            temp.push(share);
            rr += 1;
        }
        proof {
            assert(self.data_square.col_seq(j as int).take(w as int) =~= self.data_square.col_seq(
                j as int,
            ));
        }
        if known == w {
            let root = compute_axis_root::<T>(Axis::Col, j, &temp);
            proof {
                assert(temp.deep_view() =~= self.data_square.col_seq(j as int));
                assert(old(self).data_square.col_complete(j as int));
            }
            if bytes_eq(&root, &trusted[j]) {
                return AxisOutcome::Solved;
            } else {
                return AxisOutcome::Mismatch(temp);
            }
        }
        if known >= k {
            let ghost before = temp.deep_view();
            let ghost s0 = self.data_square.share_size as nat;
            proof {
                assert forall|r2: int| 0 <= r2 < w implies #[trigger] before[r2]
                    == self.data_square.cell(r2, j as int) by {}
                assert(shares_uniform(before, s0));
                let r2 = choose|r2: int|
                    0 <= r2 < w && (#[trigger] self.data_square.cell(r2, j as int)).len() > 0;
                assert(before[r2].len() == s0 && s0 > 0);
                assert(before =~= self.data_square.col_seq(j as int));
                let re = choose|re: int|
                    0 <= re < w && (#[trigger] self.data_square.cell(re, j as int)).len() == 0;
                assert(!old(self).data_square.col_complete(j as int));
            }
            let decoded = self.codec.decode(&mut temp);
            match decoded {
                Ok(()) => {
                    proof {
                        assert(old(self).codec.decode_ok(
                            old(self).data_square.col_seq(j as int),
                        ));
                        assert(temp.deep_view() == old(self).codec.decoded(
                            old(self).data_square.col_seq(j as int),
                        ));
                        assert(all_nonempty_len(temp.deep_view(), s0));
                        assert(temp@.len() == w);
                        assert forall|r2: int| 0 <= r2 < w implies (#[trigger] temp@[r2])@.len()
                            == self.data_square.share_size by {
                            assert(temp.deep_view()[r2].len() == s0);
                        }
                        assert forall|r2: int|
                            0 <= r2 < w && (#[trigger] old(self).data_square.cell(
                                r2,
                                j as int,
                            )).len() > 0 implies temp@[r2]@ == old(self).data_square.cell(
                            r2,
                            j as int,
                        ) by {
                            assert(before[r2] == old(self).data_square.cell(r2, j as int));
                            assert(temp.deep_view()[r2] == before[r2]);
                        }
                    }
                    let root = compute_axis_root::<T>(Axis::Col, j, &temp);
                    if bytes_eq(&root, &trusted[j]) {
                        self.data_square.fill_col(j, &temp);
                        proof {
                            assert(self.data_square.col_seq(j as int) =~= temp.deep_view());
                            assert forall|r2: int| 0 <= r2 < w implies (
                            #[trigger] self.data_square.cell(r2, j as int)).len() > 0 by {
                                assert(temp.deep_view()[r2].len() == s0);
                            }
                            assert forall|r2: int|
                                0 <= r2 < w && (#[trigger] old(self).data_square.cell(
                                    r2,
                                    j as int,
                                )).len() > 0 implies self.data_square.cell(r2, j as int) == old(
                                self,
                            ).data_square.cell(r2, j as int) by {
                                assert(before[r2] == old(self).data_square.cell(r2, j as int));
                                assert(temp.deep_view()[r2] == before[r2]);
                                assert(self.data_square.cell(r2, j as int) == temp@[r2]@);
                            }
                        }
                        return AxisOutcome::Solved;
                    } else {
                        return AxisOutcome::Mismatch(temp);
                    }
                },
                Err(_) => {
                    proof {
                        assert(!old(self).codec.decode_ok(
                            old(self).data_square.col_seq(j as int),
                        ));
                    }
                    return AxisOutcome::Stuck;
                },
            }
        }
        AxisOutcome::Stuck
    }
}

/// Law (repair convergence): consider an engine whose decode succeeds on
/// every axis of this square holding at least k known shares. If repair ended
/// in `UnrepairableDataSquare`, its contract says every incomplete axis is
/// stalled; under such an engine that means every incomplete row and column
/// holds fewer than k known shares. Contrapositively, on a square where every
/// row and column retains at least k of its 2k shares, repair cannot stall.
pub proof fn lemma_stalled_axes_lack_quorum<C: Codec, T: Tree>(eds: ExtendedDataSquare<C, T>)
    requires
        forall|i: int|
            0 <= i < eds.data_square.width && !(#[trigger] eds.data_square.row_complete(i))
                ==> axis_stalled(eds.codec, eds.original_data_width, eds.data_square.row_seq(i)),
        forall|j: int|
            0 <= j < eds.data_square.width && !(#[trigger] eds.data_square.col_complete(j))
                ==> axis_stalled(eds.codec, eds.original_data_width, eds.data_square.col_seq(j)),
        forall|i: int|
            0 <= i < eds.data_square.width && known_count(#[trigger] eds.data_square.row_seq(i))
                >= eds.original_data_width ==> eds.codec.decode_ok(eds.data_square.row_seq(i)),
        forall|j: int|
            0 <= j < eds.data_square.width && known_count(#[trigger] eds.data_square.col_seq(j))
                >= eds.original_data_width ==> eds.codec.decode_ok(eds.data_square.col_seq(j)),
    ensures
        forall|i: int|
            0 <= i < eds.data_square.width && !(#[trigger] eds.data_square.row_complete(i))
                ==> known_count(eds.data_square.row_seq(i)) < eds.original_data_width,
        forall|j: int|
            0 <= j < eds.data_square.width && !(#[trigger] eds.data_square.col_complete(j))
                ==> known_count(eds.data_square.col_seq(j)) < eds.original_data_width,
{
    assert forall|i: int|
        0 <= i < eds.data_square.width && !(#[trigger] eds.data_square.row_complete(
            i,
        )) implies known_count(eds.data_square.row_seq(i)) < eds.original_data_width by {
        if known_count(eds.data_square.row_seq(i)) >= eds.original_data_width {
            assert(eds.codec.decode_ok(eds.data_square.row_seq(i)));
            assert(!axis_stalled(eds.codec, eds.original_data_width, eds.data_square.row_seq(i)));
        }
    }
    assert forall|j: int|
        0 <= j < eds.data_square.width && !(#[trigger] eds.data_square.col_complete(
            j,
        )) implies known_count(eds.data_square.col_seq(j)) < eds.original_data_width by {
        if known_count(eds.data_square.col_seq(j)) >= eds.original_data_width {
            assert(eds.codec.decode_ok(eds.data_square.col_seq(j)));
            assert(!axis_stalled(eds.codec, eds.original_data_width, eds.data_square.col_seq(j)));
        }
    }
}

/// Law: a square imported from the flattened form of a well-formed extended
/// square has the same width and the same cells, and therefore the same row
/// and column roots and the same flattened form. The hypotheses are exactly
/// what [`ExtendedDataSquare::flattened`] ensures of `flat` and what
/// [`ExtendedDataSquare::import`] ensures of `imported` on success.
pub proof fn lemma_flattened_import_round_trip<C: Codec, T: Tree>(
    eds: ExtendedDataSquare<C, T>,
    flat: Seq<Seq<u8>>,
    imported: ExtendedDataSquare<C, T>,
)
    requires
        eds.wf(),
        imported.wf(),
        flat.len() == eds.data_square.width * eds.data_square.width,
        forall|r: int, c: int|
            0 <= r < eds.data_square.width && 0 <= c < eds.data_square.width ==> #[trigger] flat[r
                * eds.data_square.width + c] == eds.data_square.cell(r, c),
        imported.data_square.width * imported.data_square.width == flat.len(),
        forall|r: int, c: int|
            0 <= r < imported.data_square.width && 0 <= c < imported.data_square.width
                ==> #[trigger] imported.data_square.cell(r, c) == flat[r
                * imported.data_square.width + c],
    ensures
        imported.data_square.width == eds.data_square.width,
        forall|r: int, c: int|
            0 <= r < eds.data_square.width && 0 <= c < eds.data_square.width
                ==> #[trigger] imported.data_square.cell(r, c) == eds.data_square.cell(r, c),
        forall|i: int|
            0 <= i < eds.data_square.width ==> #[trigger] imported.data_square.row_root(i)
                == eds.data_square.row_root(i),
        forall|j: int|
            0 <= j < eds.data_square.width ==> #[trigger] imported.data_square.col_root(j)
                == eds.data_square.col_root(j),
{
    let w = eds.data_square.width;
    lemma_nat_sqrt(flat.len(), w as nat);
    lemma_nat_sqrt(flat.len(), imported.data_square.width as nat);
    assert forall|r: int, c: int|
        0 <= r < w && 0 <= c < w implies #[trigger] imported.data_square.cell(r, c)
        == eds.data_square.cell(r, c) by {
        assert(imported.data_square.cell(r, c) == flat[r * w + c]);
        assert(flat[r * w + c] == eds.data_square.cell(r, c));
    }
    lemma_axes_from_cells(imported.data_square, eds.data_square);
}

/// Law: the flattened form of a well-formed, fully populated extended square
/// meets every condition under which `import` succeeds, provided the engine
/// accepts the square's share size and its capacity is not exceeded. The
/// hypotheses about `flat` are what [`ExtendedDataSquare::flattened`]
/// ensures.
pub proof fn lemma_flattened_accepted_by_import<C: Codec, T: Tree>(
    eds: ExtendedDataSquare<C, T>,
    flat: Seq<Seq<u8>>,
    codec: C,
)
    requires
        eds.wf(),
        eds.data_square.width > 0,
        forall|r: int, c: int|
            0 <= r < eds.data_square.width && 0 <= c < eds.data_square.width ==> (
            #[trigger] eds.data_square.cell(r, c)).len() > 0,
        flat.len() == eds.data_square.width * eds.data_square.width,
        forall|r: int, c: int|
            0 <= r < eds.data_square.width && 0 <= c < eds.data_square.width ==> #[trigger] flat[r
                * eds.data_square.width + c] == eds.data_square.cell(r, c),
        flat.len() <= 4 * codec.max_chunks_spec(),
        codec.chunk_size_ok(eds.data_square.share_size),
    ensures
        codec.chunk_size_ok(first_share_size(flat) as usize),
        shares_uniform(flat, first_share_size(flat)),
        is_perfect_square(flat.len() as nat),
        nat_sqrt(flat.len() as nat) == eds.data_square.width,
        nat_sqrt(flat.len() as nat) > 0,
        nat_sqrt(flat.len() as nat) % 2 == 0,
        first_share_size(flat) == eds.data_square.share_size,
{
    let w = eds.data_square.width as int;
    lemma_nat_sqrt(flat.len(), eds.data_square.width as nat);
    assert(w * w >= 1) by (nonlinear_arith)
        requires
            w >= 1,
    ;
    assert(flat[0 * w + 0] == eds.data_square.cell(0, 0));
    assert(flat[0].len() == eds.data_square.share_size);
    assert(first_share_size(flat) == flat[0].len());
    assert forall|m: int|
        0 <= m < flat.len() implies ((#[trigger] flat[m]).len() == 0 || flat[m].len()
        == first_share_size(flat)) by {
        lemma_fundamental_div_mod(m, w);
        lemma_div_pos_is_pos(m, w);
        let q = m / w;
        let rem = m % w;
        if q >= w {
            lemma_mul_inequality(w, q, w);
            assert(false);
        }
        assert(flat[q * w + rem] == eds.data_square.cell(q, rem));
        assert(flat[m].len() == eds.data_square.share_size);
    }
}

/// Length of the first non-empty share, or 0 if every share is empty.
#[verifier::loop_isolation(false)]
pub fn get_share_size(data: &Vec<Vec<u8>>) -> (r: usize)
    ensures
        r == first_share_size(data.deep_view()),
{
    let mut i: usize = 0;
    while i < data.len()
        invariant
            i <= data@.len(),
            first_share_size(data.deep_view()) == first_share_size_from(data.deep_view(), i as int),
        decreases data@.len() - i,
    {
        if data[i].len() > 0 {
            return data[i].len();
        }
        i += 1;
    }
    0
}

/// An extended data square's width must be even and non-zero.
pub fn validate_eds_width(width: usize) -> (r: Result<(), Error>)
    ensures
        r.is_ok() <==> (width > 0 && width % 2 == 0),
        (r matches Err(Error::InvalidChunkSize)) <==> !(width > 0 && width % 2 == 0),
{
    if width == 0 || width % 2 != 0 {
        return Err(Error::InvalidChunkSize);
    }
    Ok(())
}

} // verus!
