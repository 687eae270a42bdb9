//! Square share storage, dual-indexed by row and by column, with cached
//! per-axis commitment roots.

use crate::Axis;
use crate::Error;
use crate::clone_share;
use crate::clone_shares;
use crate::is_perfect_square;
use crate::shares_uniform;
use crate::square_of;
use crate::tree::Tree;
use core::marker::PhantomData;
use vstd::arithmetic::div_mod::lemma_fundamental_div_mod;
use vstd::arithmetic::mul::lemma_mul_inequality;
use vstd::pervasive::VecAdditionalExecFns;
use vstd::prelude::*;

verus! {

broadcast use crate::lemma_bytes_deep_view, crate::lemma_shares_deep_view;

/// Share storage for an original or extended data square: the same W*W
/// shares held in row-major and in column-major order, with one cached root
/// per row and per column. An empty share marks an unset cell awaiting
/// repair; every other share has the square's fixed share size.
pub struct DataSquare<T: Tree> {
    pub square_row: Vec<Vec<Vec<u8>>>,
    pub square_col: Vec<Vec<Vec<u8>>>,
    pub width: usize,
    pub share_size: usize,
    pub cached_row_roots: Option<Vec<Vec<u8>>>,
    pub cached_col_roots: Option<Vec<Vec<u8>>>,
    pub tree_marker: PhantomData<T>,
}

impl<T: Tree> DataSquare<T> {
    /// The bytes of the share at row `r`, column `c`.
    pub open spec fn cell(self, r: int, c: int) -> Seq<u8> {
        self.square_row@[r]@[c]@
    }

    /// Row `i` as a share sequence in column order.
    pub open spec fn row_seq(self, i: int) -> Seq<Seq<u8>> {
        Seq::new(self.width as nat, |c: int| self.cell(i, c))
    }

    /// Column `j` as a share sequence in row order.
    pub open spec fn col_seq(self, j: int) -> Seq<Seq<u8>> {
        Seq::new(self.width as nat, |r: int| self.cell(r, j))
    }

    /// Row `i` has no unset share.
    pub open spec fn row_complete(self, i: int) -> bool {
        forall|c: int| 0 <= c < self.width ==> (#[trigger] self.cell(i, c)).len() > 0
    }

    /// Column `j` has no unset share.
    pub open spec fn col_complete(self, j: int) -> bool {
        forall|r: int| 0 <= r < self.width ==> (#[trigger] self.cell(r, j)).len() > 0
    }

    /// The commitment root of row `i` under the square's accumulator.
    pub open spec fn row_root(self, i: int) -> Seq<u8> {
        T::root_model(Axis::Row, i as usize, self.row_seq(i))
    }

    /// The commitment root of column `j` under the square's accumulator.
    pub open spec fn col_root(self, j: int) -> Seq<u8> {
        T::root_model(Axis::Col, j as usize, self.col_seq(j))
    }

    /// All cells, row-major, as a sequence of rows.
    pub open spec fn content(self) -> Seq<Seq<Seq<u8>>> {
        Seq::new(self.width as nat, |r: int| self.row_seq(r))
    }

    /// A present row-root cache lists the root of every (complete) row.
    pub open spec fn row_cache_ok(self) -> bool {
        match self.cached_row_roots {
            Option::Some(roots) => {
                &&& roots@.len() == self.width
                &&& (forall|i: int|
                    0 <= i < self.width ==> (#[trigger] roots@[i])@ == self.row_root(i))
                &&& (forall|i: int| 0 <= i < self.width ==> self.row_complete(i))
            },
            Option::None => true,
        }
    }

    /// A present column-root cache lists the root of every (complete) column.
    pub open spec fn col_cache_ok(self) -> bool {
        match self.cached_col_roots {
            Option::Some(roots) => {
                &&& roots@.len() == self.width
                &&& (forall|j: int|
                    0 <= j < self.width ==> (#[trigger] roots@[j])@ == self.col_root(j))
                &&& (forall|j: int| 0 <= j < self.width ==> self.col_complete(j))
            },
            Option::None => true,
        }
    }

    /// Well-formedness: both storages are width-by-width views of the same
    /// cells, every present share has the square's share size, and any cached
    /// roots match the current cells.
    pub open spec fn wf(self) -> bool {
        &&& self.square_row@.len() == self.width
        &&& (forall|r: int|
            0 <= r < self.width ==> (#[trigger] self.square_row@[r])@.len() == self.width)
        &&& self.square_col@.len() == self.width
        &&& (forall|c: int|
            0 <= c < self.width ==> (#[trigger] self.square_col@[c])@.len() == self.width)
        &&& (forall|r: int, c: int|
            0 <= r < self.width && 0 <= c < self.width ==> (#[trigger] self.square_col@[c]@[r])@
                == self.square_row@[r]@[c]@)
        &&& (forall|r: int, c: int|
            0 <= r < self.width && 0 <= c < self.width ==> ((#[trigger] self.cell(r, c)).len() == 0
                || self.cell(r, c).len() == self.share_size))
        &&& self.row_cache_ok()
        &&& self.col_cache_ok()
    }
}

/// Flat row-major index of cell (r, c) in a square of width w.
pub proof fn lemma_flat_index_bound(r: int, c: int, w: int)
    requires
        0 <= r < w,
        0 <= c < w,
    ensures
        0 <= r * w + c < w * w,
{
    assert(r * w + c < w * w) by (nonlinear_arith)
        requires
            0 <= r < w,
            0 <= c < w,
    ;
    assert(r * w + c >= 0) by (nonlinear_arith)
        requires
            0 <= r,
            0 <= c,
            0 <= w,
    ;
}

/// Two squares with equal width and equal cells have equal axis sequences
/// and equal axis roots, whatever their caches hold.
pub proof fn lemma_axes_from_cells<T: Tree>(a: DataSquare<T>, b: DataSquare<T>)
    requires
        a.width == b.width,
        forall|r: int, c: int|
            0 <= r < a.width && 0 <= c < a.width ==> #[trigger] a.cell(r, c) == b.cell(r, c),
    ensures
        forall|i: int| 0 <= i < a.width ==> #[trigger] a.row_seq(i) == b.row_seq(i),
        forall|j: int| 0 <= j < a.width ==> #[trigger] a.col_seq(j) == b.col_seq(j),
        forall|i: int| 0 <= i < a.width ==> #[trigger] a.row_root(i) == b.row_root(i),
        forall|j: int| 0 <= j < a.width ==> #[trigger] a.col_root(j) == b.col_root(j),
        forall|i: int| 0 <= i < a.width ==> (a.row_complete(i) <==> #[trigger] b.row_complete(i)),
        forall|j: int| 0 <= j < a.width ==> (a.col_complete(j) <==> #[trigger] b.col_complete(j)),
{
    assert forall|i: int| 0 <= i < a.width implies #[trigger] a.row_seq(i) == b.row_seq(i) by {
        assert(a.row_seq(i) =~= b.row_seq(i));
    }
    assert forall|j: int| 0 <= j < a.width implies #[trigger] a.col_seq(j) == b.col_seq(j) by {
        assert(a.col_seq(j) =~= b.col_seq(j));
    }
    assert forall|i: int|
        0 <= i < a.width implies (a.row_complete(i) <==> #[trigger] b.row_complete(i)) by {
        if a.row_complete(i) {
            assert forall|c: int| 0 <= c < b.width implies (#[trigger] b.cell(i, c)).len() > 0 by {
                assert(a.cell(i, c).len() > 0);
            }
        }
        if b.row_complete(i) {
            assert forall|c: int| 0 <= c < a.width implies (#[trigger] a.cell(i, c)).len() > 0 by {
                assert(b.cell(i, c).len() > 0);
            }
        }
    }
    assert forall|j: int|
        0 <= j < a.width implies (a.col_complete(j) <==> #[trigger] b.col_complete(j)) by {
        if a.col_complete(j) {
            assert forall|r: int| 0 <= r < b.width implies (#[trigger] b.cell(r, j)).len() > 0 by {
                assert(a.cell(r, j).len() > 0);
            }
        }
        if b.col_complete(j) {
            assert forall|r: int| 0 <= r < a.width implies (#[trigger] a.cell(r, j)).len() > 0 by {
                assert(b.cell(r, j).len() > 0);
            }
        }
    }
}

/// Below the floor square root and above it, squares miss `n`.
proof fn lemma_no_square_between(n: nat, w: nat)
    requires
        w * w <= n,
        n < (w + 1) * (w + 1),
        w * w != n,
    ensures
        !is_perfect_square(n),
{
    assert forall|v: nat| #[trigger] square_of(v) != n by {
        if v <= w {
            assert(v * v <= w * w) by (nonlinear_arith)
                requires
                    v <= w,
            ;
        } else {
            assert(v * v >= (w + 1) * (w + 1)) by (nonlinear_arith)
                requires
                    v >= w + 1,
            ;
        }
    }
}

/// Floor of the square root.
#[verifier::loop_isolation(false)]
fn int_sqrt(n: usize) -> (w: usize)
    ensures
        w * w <= n,
        n < (w + 1) * (w + 1),
{
    if n == 0 {
        return 0;
    }
    let mut w: usize = 0;
    loop
        invariant
            n >= 1,
            w * w <= n,
            w <= n,
        decreases n - w,
    {
        proof {
            if w >= 2 {
                assert(w * w >= 2 * w) by (nonlinear_arith)
                    requires
                        w >= 2,
                ;
            }
        }
        let q = n / (w + 1);
        if w + 1 <= q {
            proof {
                let a = (w + 1) as int;
                lemma_fundamental_div_mod(n as int, a);
                lemma_mul_inequality(a, n as int / a, a);
            }
            w = w + 1;
        } else {
            proof {
                let a = (w + 1) as int;
                lemma_fundamental_div_mod(n as int, a);
                lemma_mul_inequality(n as int / a, w as int, a);
                assert((w as int) * a + a == a * a) by (nonlinear_arith)
                    requires
                        a == w as int + 1,
                ;
            }
            return w;
        }
    }
}

impl<T: Tree> DataSquare<T> {
    /// Assemble a square from its rows, deriving the column-major storage.
    #[verifier::loop_isolation(false)]
    pub(crate) fn from_rows(rows: Vec<Vec<Vec<u8>>>, width: usize, share_size: usize) -> (ds:
        DataSquare<T>)
        requires
            rows@.len() == width,
            forall|r: int| 0 <= r < width ==> (#[trigger] rows@[r])@.len() == width,
            forall|r: int, c: int|
                0 <= r < width && 0 <= c < width ==> ((#[trigger] rows@[r]@[c])@.len() == 0
                    || rows@[r]@[c]@.len() == share_size),
        ensures
            ds.wf(),
            ds.width == width,
            ds.share_size == share_size,
            ds.cached_row_roots is None,
            ds.cached_col_roots is None,
            forall|r: int, c: int|
                0 <= r < width && 0 <= c < width ==> #[trigger] ds.cell(r, c) == rows@[r]@[c]@,
    {
        let mut square_col: Vec<Vec<Vec<u8>>> = Vec::new();
        let mut c: usize = 0;
        while c < width
            invariant
                square_col@.len() == c,
                c <= width,
                forall|cc: int| 0 <= cc < c ==> (#[trigger] square_col@[cc])@.len() == width,
                forall|cc: int, r: int|
                    0 <= cc < c && 0 <= r < width ==> (#[trigger] square_col@[cc]@[r])@
                        == rows@[r]@[cc]@,
            decreases width - c,
        {
            let mut colv: Vec<Vec<u8>> = Vec::new();
            let mut r: usize = 0;
            while r < width
                invariant
                    colv@.len() == r,
                    r <= width,
                    forall|rr: int| 0 <= rr < r ==> (#[trigger] colv@[rr])@ == rows@[rr]@[c as int]@,
                decreases width - r,
            {
                colv.push(clone_share(&rows[r][c]));
                r += 1;
            }
            square_col.push(colv);
            c += 1;
        }
        let ds = DataSquare {
            square_row: rows,
            square_col,
            width,
            share_size,
            cached_row_roots: None,
            cached_col_roots: None,
            tree_marker: PhantomData,
        };
        ds
    }

    /// Build a square from a flat, row-major share list. Fails with
    /// `UnevenChunks` if a non-empty share's length differs from
    /// `share_size`, and with `InvalidChunkSize` if the share count is not a
    /// perfect square.
    #[verifier::loop_isolation(false)]
    pub fn new(data: Vec<Vec<u8>>, share_size: usize) -> (r: Result<DataSquare<T>, Error>)
        ensures
            (r matches Err(Error::UnevenChunks)) <==> !shares_uniform(
                data.deep_view(),
                share_size as nat,
            ),
            (r matches Err(Error::InvalidChunkSize)) <==> (shares_uniform(
                data.deep_view(),
                share_size as nat,
            ) && !is_perfect_square(data@.len() as nat)),
            r.is_ok() <==> (shares_uniform(data.deep_view(), share_size as nat)
                && is_perfect_square(data@.len() as nat)),
            r matches Ok(ds) ==> ({
                &&& ds.wf()
                &&& ds.share_size == share_size
                &&& ds.width * ds.width == data@.len()
                &&& ds.cached_row_roots is None
                &&& ds.cached_col_roots is None
                &&& forall|rr: int, cc: int|
                    0 <= rr < ds.width && 0 <= cc < ds.width ==> #[trigger] ds.cell(rr, cc)
                        == data.deep_view()[rr * ds.width + cc]
            }),
    {
        let n = data.len();
        let mut i: usize = 0;
        while i < n
            invariant
                i <= n,
                forall|j: int|
                    0 <= j < i ==> ((#[trigger] data.deep_view()[j]).len() == 0
                        || data.deep_view()[j].len() == share_size),
            decreases n - i,
        {
            if data[i].len() != 0 && data[i].len() != share_size {
                proof {
                    let dvi = data.deep_view()[i as int];
                    assert(dvi.len() != 0 && dvi.len() != share_size);
                    assert(!shares_uniform(data.deep_view(), share_size as nat));
                }
                return Err(Error::UnevenChunks);
            }
            i += 1;
        }
        let width = int_sqrt(n);
        if width * width != n {
            proof {
                lemma_no_square_between(n as nat, width as nat);
            }
            return Err(Error::InvalidChunkSize);
        }
        proof {
            assert(square_of(width as nat) == n as nat);
        }
        let mut rows: Vec<Vec<Vec<u8>>> = Vec::new();
        let mut r: usize = 0;
        while r < width
            invariant
                rows@.len() == r,
                r <= width,
                width * width == n,
                n == data@.len(),
                forall|rr: int| 0 <= rr < r ==> (#[trigger] rows@[rr])@.len() == width,
                forall|rr: int, cc: int|
                    0 <= rr < r && 0 <= cc < width ==> (#[trigger] rows@[rr]@[cc])@
                        == data.deep_view()[rr * width + cc],
            decreases width - r,
        {
            let mut rowv: Vec<Vec<u8>> = Vec::new();
            let mut c: usize = 0;
            while c < width
                invariant
                    rowv@.len() == c,
                    c <= width,
                    r < width,
                    forall|cc: int|
                        0 <= cc < c ==> (#[trigger] rowv@[cc])@ == data.deep_view()[r * width + cc],
                decreases width - c,
            {
                proof {
                    lemma_flat_index_bound(r as int, c as int, width as int);
                }
                rowv.push(clone_share(&data[r * width + c]));
                c += 1;
            }
            rows.push(rowv);
            r += 1;
        }
        proof {
            assert forall|rr: int, cc: int| 0 <= rr < width && 0 <= cc < width implies ((
            #[trigger] rows@[rr]@[cc])@.len() == 0 || rows@[rr]@[cc]@.len() == share_size) by {
                lemma_flat_index_bound(rr, cc, width as int);
                assert(rows@[rr]@[cc]@ == data.deep_view()[rr * width + cc]);
            }
        }
        let ds = Self::from_rows(rows, width, share_size);
        proof {
            assert forall|rr: int, cc: int| 0 <= rr < width && 0 <= cc < width implies #[trigger] ds.cell(
                rr,
                cc,
            ) == data.deep_view()[rr * ds.width + cc] by {
                lemma_flat_index_bound(rr, cc, width as int);
            }
        }
        Ok(ds)
    }

    /// The shares of row `row_idx`, in column order; `InvalidChunkSize` if
    /// the index is out of range.
    pub fn row(&self, row_idx: usize) -> (r: Result<&Vec<Vec<u8>>, Error>)
        requires
            self.wf(),
        ensures
            r.is_ok() <==> row_idx < self.width,
            (r matches Err(Error::InvalidChunkSize)) <==> row_idx >= self.width,
            r matches Ok(row) ==> row.deep_view() == self.row_seq(row_idx as int),
    {
        if row_idx >= self.width {
            return Err(Error::InvalidChunkSize);
        }
        let row = &self.square_row[row_idx];
        proof {
            assert(row.deep_view() =~= self.row_seq(row_idx as int));
        }
        Ok(row)
    }

    /// The shares of column `col_idx`, in row order; `InvalidChunkSize` if
    /// the index is out of range.
    pub fn col(&self, col_idx: usize) -> (r: Result<&Vec<Vec<u8>>, Error>)
        requires
            self.wf(),
        ensures
            r.is_ok() <==> col_idx < self.width,
            (r matches Err(Error::InvalidChunkSize)) <==> col_idx >= self.width,
            r matches Ok(col) ==> col.deep_view() == self.col_seq(col_idx as int),
    {
        if col_idx >= self.width {
            return Err(Error::InvalidChunkSize);
        }
        let col = &self.square_col[col_idx];
        proof {
            assert(col.deep_view() =~= self.col_seq(col_idx as int));
        }
        Ok(col)
    }

    /// Write one cell into both storage views and drop the cached roots.
    /// Rejects out-of-range indices (`InvalidChunkSize`) and a non-empty
    /// share whose length is not the square's share size (`UnevenChunks`).
    pub fn set_cell(&mut self, row_idx: usize, col_idx: usize, data: Vec<u8>) -> (r: Result<
        (),
        Error,
    >)
        requires
            old(self).wf(),
        ensures
            final (self).wf(),
            final (self).width == old(self).width,
            final (self).share_size == old(self).share_size,
            (r matches Err(Error::InvalidChunkSize)) <==> !(row_idx < old(self).width && col_idx
                < old(self).width),
            (r matches Err(Error::UnevenChunks)) <==> (row_idx < old(self).width && col_idx < old(
                self,
            ).width && data@.len() != 0 && data@.len() != old(self).share_size),
            r.is_ok() <==> (row_idx < old(self).width && col_idx < old(self).width && (data@.len()
                == 0 || data@.len() == old(self).share_size)),
            r.is_ok() ==> ({
                &&& final (self).cell(row_idx as int, col_idx as int) == data@
                &&& (forall|rr: int, cc: int|
                    0 <= rr < old(self).width && 0 <= cc < old(self).width && !(rr == row_idx && cc
                        == col_idx) ==> #[trigger] final (self).cell(rr, cc) == old(self).cell(
                        rr,
                        cc,
                    ))
                &&& final (self).cached_row_roots is None
                &&& final (self).cached_col_roots is None
            }),
            r.is_err() ==> *final (self) == *old(self),
    {
        if row_idx >= self.width || col_idx >= self.width {
            return Err(Error::InvalidChunkSize);
        }
        if data.len() != 0 && data.len() != self.share_size {
            return Err(Error::UnevenChunks);
        }
        let ghost datav = data@;
        let copy = clone_share(&data);
        let row = &mut self.square_row[row_idx];
        row.set(col_idx, data);
        let col = &mut self.square_col[col_idx];
        col.set(row_idx, copy);
        self.reset_roots();
        proof {
            let ns = *self;
            let os = *old(self);
            assert(ns.cell(row_idx as int, col_idx as int) == datav);
            assert forall|rr: int, cc: int|
                0 <= rr < ns.width && 0 <= cc < ns.width && !(rr == row_idx && cc
                    == col_idx) implies #[trigger] ns.cell(rr, cc) == os.cell(rr, cc) by {}
            assert forall|r: int, c: int| 0 <= r < ns.width && 0 <= c < ns.width implies (
            #[trigger] ns.square_col@[c]@[r])@ == ns.square_row@[r]@[c]@ by {}
            assert forall|r: int, c: int| 0 <= r < ns.width && 0 <= c < ns.width implies ((
            #[trigger] ns.cell(r, c)).len() == 0 || ns.cell(r, c).len() == ns.share_size) by {
                if !(r == row_idx && c == col_idx) {
                    assert(ns.cell(r, c) == os.cell(r, c));
                }
            }
        }
        Ok(())
    }

    /// The share at (row_idx, col_idx); `InvalidChunkSize` if either index is
    /// out of range.
    pub fn get_cell(&self, row_idx: usize, col_idx: usize) -> (r: Result<&Vec<u8>, Error>)
        requires
            self.wf(),
        ensures
            r.is_ok() <==> (row_idx < self.width && col_idx < self.width),
            (r matches Err(Error::InvalidChunkSize)) <==> !(row_idx < self.width && col_idx
                < self.width),
            r matches Ok(share) ==> share@ == self.cell(row_idx as int, col_idx as int),
    {
        if row_idx >= self.width || col_idx >= self.width {
            return Err(Error::InvalidChunkSize);
        }
        Ok(&self.square_row[row_idx][col_idx])
    }

    /// The square's width.
    pub fn width(&self) -> (r: usize)
        ensures
            r == self.width,
    {
        self.width
    }

    /// Compute the commitment root of row `row_idx` from the current cells.
    #[verifier::loop_isolation(false)]
    fn compute_row_root(&self, row_idx: usize) -> (r: Vec<u8>)
        requires
            self.wf(),
            row_idx < self.width,
        ensures
            r@ == self.row_root(row_idx as int),
    {
        let mut tree = T::new(Axis::Row, row_idx);
        let mut c: usize = 0;
        while c < self.width
            invariant
                c <= self.width,
                tree.axis() == Axis::Row,
                tree.index() == row_idx,
                tree.leaves() == self.row_seq(row_idx as int).take(c as int),
            decreases self.width - c,
        {
            let _ = tree.push(&self.square_row[row_idx][c]);
            proof {
                assert(self.row_seq(row_idx as int).take(c + 1 as int) =~= self.row_seq(
                    row_idx as int,
                ).take(c as int).push(self.cell(row_idx as int, c as int)));
            }
            c += 1;
        }
        proof {
            assert(self.row_seq(row_idx as int).take(self.width as int) =~= self.row_seq(
                row_idx as int,
            ));
        }
        match tree.root() {
            Ok(root) => root,
            Err(_) => Vec::new(),
        }
    }

    /// Compute the commitment root of column `col_idx` from the current cells.
    #[verifier::loop_isolation(false)]
    fn compute_col_root(&self, col_idx: usize) -> (r: Vec<u8>)
        requires
            self.wf(),
            col_idx < self.width,
        ensures
            r@ == self.col_root(col_idx as int),
    {
        let mut tree = T::new(Axis::Col, col_idx);
        let mut rr: usize = 0;
        while rr < self.width
            invariant
                rr <= self.width,
                tree.axis() == Axis::Col,
                tree.index() == col_idx,
                tree.leaves() == self.col_seq(col_idx as int).take(rr as int),
            decreases self.width - rr,
        {
            let _ = tree.push(&self.square_col[col_idx][rr]);
            proof {
                assert(self.col_seq(col_idx as int).take(rr + 1 as int) =~= self.col_seq(
                    col_idx as int,
                ).take(rr as int).push(self.cell(rr as int, col_idx as int)));
            }
            rr += 1;
        }
        proof {
            assert(self.col_seq(col_idx as int).take(self.width as int) =~= self.col_seq(
                col_idx as int,
            ));
        }
        match tree.root() {
            Ok(root) => root,
            Err(_) => Vec::new(),
        }
    }

    /// Memoized roots of all rows, in index order. Refuses to commit to
    /// incomplete data: if any row has an unset share, the result is
    /// `IncompleteAxis` for the row axis and nothing is cached.
    #[verifier::loop_isolation(false)]
    pub fn row_roots(&mut self) -> (r: Result<Vec<Vec<u8>>, Error>)
        requires
            old(self).wf(),
        ensures
            final (self).wf(),
            final (self).width == old(self).width,
            final (self).share_size == old(self).share_size,
            forall|rr: int, cc: int|
                0 <= rr < old(self).width && 0 <= cc < old(self).width ==> #[trigger] final (self).cell(rr, cc) == old(self).cell(rr, cc),
            r.is_ok() <==> (forall|i: int| 0 <= i < old(self).width ==> old(self).row_complete(i)),
            r matches Ok(roots) ==> ({
                &&& roots@.len() == old(self).width
                &&& forall|i: int|
                    0 <= i < old(self).width ==> (#[trigger] roots@[i])@ == old(self).row_root(i)
            }),
            r.is_err() ==> r matches Err(Error::IncompleteAxis { axis: Axis::Row }),
            r.is_err() ==> *final (self) == *old(self),
    {
        proof {
            assert forall|rr: int, cc: int|
                0 <= rr < self.width && 0 <= cc < self.width implies #[trigger] self.cell(rr, cc)
                == old(self).cell(rr, cc) by {}
        }
        let w = self.width;
        match &self.cached_row_roots {
            Some(cached) => {
                let out = clone_shares(cached);
                proof {
                    assert forall|i: int| 0 <= i < w implies (#[trigger] out@[i])@ == old(
                        self,
                    ).row_root(i) by {
                        assert(out.deep_view()[i] == self.cached_row_roots.unwrap().deep_view()[i]);
                    }
                }
                return Ok(out);
            },
            None => {},
        }
        let mut i: usize = 0;
        while i < w
            invariant
                i <= w,
                forall|ii: int| 0 <= ii < i ==> old(self).row_complete(ii),
            decreases w - i,
        {
            let mut c: usize = 0;
            while c < w
                invariant
                    c <= w,
                    i < w,
                    forall|cc: int|
                        0 <= cc < c ==> (#[trigger] old(self).cell(i as int, cc)).len() > 0,
                decreases w - c,
            {
                if self.square_row[i][c].len() == 0 {
                    proof {
                        assert(old(self).cell(i as int, c as int).len() == 0);
                        assert(!old(self).row_complete(i as int));
                    }
                    return Err(Error::IncompleteAxis { axis: Axis::Row });
                }
                c += 1;
            }
            i += 1;
        }
        let mut roots: Vec<Vec<u8>> = Vec::new();
        let mut i: usize = 0;
        while i < w
            invariant
                i <= w,
                roots@.len() == i,
                forall|ii: int| 0 <= ii < i ==> (#[trigger] roots@[ii])@ == self.row_root(ii),
            decreases w - i,
        {
            let root = self.compute_row_root(i);
            roots.push(root);
            i += 1;
        }
        let cache = clone_shares(&roots);
        proof {
            assert forall|ii: int| 0 <= ii < w implies (#[trigger] cache@[ii])@ == self.row_root(
                ii,
            ) by {
                assert(cache.deep_view()[ii] == roots.deep_view()[ii]);
            }
        }
        self.cached_row_roots = Some(cache);
        proof {
            lemma_axes_from_cells(*self, *old(self));
            assert forall|r2: int, c2: int| 0 <= r2 < w && 0 <= c2 < w implies ((
            #[trigger] self.cell(r2, c2)).len() == 0 || self.cell(r2, c2).len()
                == self.share_size) by {
                assert(self.cell(r2, c2) == old(self).cell(r2, c2));
            }
            assert forall|ii: int| 0 <= ii < w implies self.row_complete(ii) by {
                assert(old(self).row_complete(ii));
            }
            assert forall|ii: int| 0 <= ii < w implies (#[trigger] cache@[ii])@ == self.row_root(
                ii,
            ) by {
                assert(cache@[ii]@ == old(self).row_root(ii));
            }
            let ghost cco = self.cached_col_roots;
            match cco {
                Option::Some(cs) => {
                    assert forall|jj: int| 0 <= jj < w implies (#[trigger] cs@[jj])@
                        == self.col_root(jj) by {
                        assert(cs@[jj]@ == old(self).col_root(jj));
                    }
                    assert forall|jj: int| 0 <= jj < w implies self.col_complete(jj) by {
                        assert(old(self).col_complete(jj));
                    }
                },
                Option::None => {},
            }
        }
        Ok(roots)
    }

    /// Memoized roots of all columns, in index order. Refuses to commit to
    /// incomplete data: if any column has an unset share, the result is
    /// `IncompleteAxis` for the column axis and nothing is cached.
    #[verifier::loop_isolation(false)]
    pub fn col_roots(&mut self) -> (r: Result<Vec<Vec<u8>>, Error>)
        requires
            old(self).wf(),
        ensures
            final (self).wf(),
            final (self).width == old(self).width,
            final (self).share_size == old(self).share_size,
            forall|rr: int, cc: int|
                0 <= rr < old(self).width && 0 <= cc < old(self).width ==> #[trigger] final (self).cell(rr, cc) == old(self).cell(rr, cc),
            r.is_ok() <==> (forall|j: int| 0 <= j < old(self).width ==> old(self).col_complete(j)),
            r matches Ok(roots) ==> ({
                &&& roots@.len() == old(self).width
                &&& forall|j: int|
                    0 <= j < old(self).width ==> (#[trigger] roots@[j])@ == old(self).col_root(j)
            }),
            r.is_err() ==> r matches Err(Error::IncompleteAxis { axis: Axis::Col }),
            r.is_err() ==> *final (self) == *old(self),
    {
        proof {
            assert forall|rr: int, cc: int|
                0 <= rr < self.width && 0 <= cc < self.width implies #[trigger] self.cell(rr, cc)
                == old(self).cell(rr, cc) by {}
        }
        let w = self.width;
        match &self.cached_col_roots {
            Some(cached) => {
                let out = clone_shares(cached);
                proof {
                    assert forall|j: int| 0 <= j < w implies (#[trigger] out@[j])@ == old(
                        self,
                    ).col_root(j) by {
                        assert(out.deep_view()[j] == self.cached_col_roots.unwrap().deep_view()[j]);
                    }
                }
                return Ok(out);
            },
            None => {},
        }
        let mut j: usize = 0;
        while j < w
            invariant
                j <= w,
                forall|jj: int| 0 <= jj < j ==> old(self).col_complete(jj),
            decreases w - j,
        {
            let mut rr: usize = 0;
            while rr < w
                invariant
                    rr <= w,
                    j < w,
                    forall|r2: int|
                        0 <= r2 < rr ==> (#[trigger] old(self).cell(r2, j as int)).len() > 0,
                decreases w - rr,
            {
                if self.square_col[j][rr].len() == 0 {
                    proof {
                        assert(old(self).cell(rr as int, j as int).len() == 0);
                        assert(!old(self).col_complete(j as int));
                    }
                    return Err(Error::IncompleteAxis { axis: Axis::Col });
                }
                rr += 1;
            }
            j += 1;
        }
        let mut roots: Vec<Vec<u8>> = Vec::new();
        let mut j: usize = 0;
        while j < w
            invariant
                j <= w,
                roots@.len() == j,
                forall|jj: int| 0 <= jj < j ==> (#[trigger] roots@[jj])@ == self.col_root(jj),
            decreases w - j,
        {
            let root = self.compute_col_root(j);
            roots.push(root);
            j += 1;
        }
        let cache = clone_shares(&roots);
        proof {
            assert forall|jj: int| 0 <= jj < w implies (#[trigger] cache@[jj])@ == self.col_root(
                jj,
            ) by {
                assert(cache.deep_view()[jj] == roots.deep_view()[jj]);
            }
        }
        self.cached_col_roots = Some(cache);
        proof {
            lemma_axes_from_cells(*self, *old(self));
            assert forall|r2: int, c2: int| 0 <= r2 < w && 0 <= c2 < w implies ((
            #[trigger] self.cell(r2, c2)).len() == 0 || self.cell(r2, c2).len()
                == self.share_size) by {
                assert(self.cell(r2, c2) == old(self).cell(r2, c2));
            }
            assert forall|jj: int| 0 <= jj < w implies self.col_complete(jj) by {
                assert(old(self).col_complete(jj));
            }
            assert forall|jj: int| 0 <= jj < w implies (#[trigger] cache@[jj])@ == self.col_root(
                jj,
            ) by {
                assert(cache@[jj]@ == old(self).col_root(jj));
            }
            let ghost cro = self.cached_row_roots;
            match cro {
                Option::Some(cs) => {
                    assert forall|ii: int| 0 <= ii < w implies (#[trigger] cs@[ii])@
                        == self.row_root(ii) by {
                        assert(cs@[ii]@ == old(self).row_root(ii));
                    }
                    assert forall|ii: int| 0 <= ii < w implies self.row_complete(ii) by {
                        assert(old(self).row_complete(ii));
                    }
                },
                Option::None => {},
            }
        }
        Ok(roots)
    }

    /// All shares in row-major order, without side effects.
    #[verifier::loop_isolation(false)]
    pub fn flattened(&self) -> (r: Vec<Vec<u8>>)
        requires
            self.wf(),
        ensures
            r@.len() == self.width * self.width,
            forall|rr: int, cc: int|
                0 <= rr < self.width && 0 <= cc < self.width ==> #[trigger] r.deep_view()[rr
                    * self.width + cc] == self.cell(rr, cc),
    {
        let w = self.width;
        let mut out: Vec<Vec<u8>> = Vec::new();
        let mut i: usize = 0;
        while i < w
            invariant
                i <= w,
                out@.len() == i * w,
                forall|rr: int, cc: int|
                    0 <= rr < i && 0 <= cc < w ==> #[trigger] out.deep_view()[rr * w + cc]
                        == self.cell(rr, cc),
            decreases w - i,
        {
            let mut c: usize = 0;
            while c < w
                invariant
                    c <= w,
                    i < w,
                    out@.len() == i * w + c,
                    forall|rr: int, cc: int|
                        0 <= rr < i && 0 <= cc < w ==> #[trigger] out.deep_view()[rr * w + cc]
                            == self.cell(rr, cc),
                    forall|cc: int|
                        0 <= cc < c ==> #[trigger] out.deep_view()[i * w + cc] == self.cell(
                            i as int,
                            cc,
                        ),
                decreases w - c,
            {
                proof {
                    lemma_flat_index_bound(i as int, c as int, w as int);
                }
                let ghost out_prev = out;
                out.push(clone_share(&self.square_row[i][c]));
                proof {
                    assert forall|rr: int, cc: int|
                        0 <= rr < i && 0 <= cc < w implies #[trigger] out.deep_view()[rr * w + cc]
                        == self.cell(rr, cc) by {
                        lemma_mul_inequality(rr + 1, i as int, w as int);
                        assert((rr + 1) * (w as int) == rr * (w as int) + w) by (nonlinear_arith);
                        assert(out_prev.deep_view()[rr * w + cc] == self.cell(rr, cc));
                        assert(out@[rr * w + cc]@ == out_prev@[rr * w + cc]@);
                    }
                    assert forall|cc: int|
                        0 <= cc < c + 1 implies #[trigger] out.deep_view()[i * w + cc] == self.cell(
                        i as int,
                        cc,
                    ) by {
                        if cc < c {
                            assert(out_prev.deep_view()[i * w + cc] == self.cell(i as int, cc));
                            assert(out@[i * w + cc]@ == out_prev@[i * w + cc]@);
                        } else {
                            assert(out@[i * w + cc]@ == self.cell(i as int, cc));
                        }
                    }
                }
                c += 1;
            }
            proof {
                assert((i + 1) * w == i * w + w) by (nonlinear_arith);
            }
            i += 1;
        }
        proof {
            assert forall|rr: int, cc: int|
                0 <= rr < w && 0 <= cc < w implies #[trigger] out.deep_view()[rr * w + cc]
                == self.cell(rr, cc) by {
                lemma_flat_index_bound(rr, cc, w as int);
            }
        }
        out
    }

    /// Overwrite every cell of row `i`, in both storage views, and drop the
    /// cached roots.
    #[verifier::loop_isolation(false)]
    pub(crate) fn fill_row(&mut self, i: usize, shares: &Vec<Vec<u8>>)
        requires
            old(self).wf(),
            i < old(self).width,
            shares@.len() == old(self).width,
            forall|c: int|
                0 <= c < shares@.len() ==> (#[trigger] shares@[c])@.len() == old(self).share_size,
        ensures
            final (self).wf(),
            final (self).width == old(self).width,
            final (self).share_size == old(self).share_size,
            final (self).cached_row_roots is None,
            final (self).cached_col_roots is None,
            forall|c: int|
                0 <= c < old(self).width ==> #[trigger] final (self).cell(i as int, c)
                    == shares@[c]@,
            forall|r: int, c: int|
                0 <= r < old(self).width && 0 <= c < old(self).width && r != i
                    ==> #[trigger] final (self).cell(r, c) == old(self).cell(r, c),
    {
        let w = self.width;
        let mut row_copy = clone_shares(shares);
        let row = &mut self.square_row[i];
        core::mem::swap(row, &mut row_copy);
        proof {
            assert forall|cc: int| 0 <= cc < w implies (#[trigger] self.square_row@[i as int]@[cc])@ == shares@[cc]@ by {
                assert(self.square_row@[i as int].deep_view()[cc] == shares.deep_view()[cc]);
            }
        }
        let ghost mid = *self;
        let mut c: usize = 0;
        while c < w
            invariant
                c <= w,
                self.square_row == mid.square_row,
                self.width == mid.width,
                self.share_size == mid.share_size,
                self.square_col@.len() == w,
                forall|cc: int| 0 <= cc < w ==> (#[trigger] self.square_col@[cc])@.len() == w,
                forall|cc: int, r2: int|
                    0 <= cc < c && 0 <= r2 < w && r2 != i ==> (#[trigger] self.square_col@[cc]@[r2])@ == old(self).cell(r2, cc),
                forall|cc: int|
                    0 <= cc < c ==> (#[trigger] self.square_col@[cc]@[i as int])@ == shares@[cc]@,
                forall|cc: int, r2: int|
                    c <= cc < w && 0 <= r2 < w ==> (#[trigger] self.square_col@[cc]@[r2])@ == old(
                        self,
                    ).square_col@[cc]@[r2]@,
            decreases w - c,
        {
            let share = clone_share(&self.square_row[i][c]);
            let col = &mut self.square_col[c];
            col.set(i, share);
            c += 1;
        }
        self.reset_roots();
        proof {
            let ns = *self;
            let os = *old(self);
            assert forall|c: int| 0 <= c < w implies #[trigger] ns.cell(i as int, c)
                == shares@[c]@ by {}
            assert forall|r: int, c: int| 0 <= r < w && 0 <= c < w && r != i implies #[trigger] ns.cell(
                r,
                c,
            ) == os.cell(r, c) by {}
            assert forall|r: int, c: int| 0 <= r < w && 0 <= c < w implies (#[trigger] ns.square_col@[c]@[r])@ == ns.square_row@[r]@[c]@ by {}
            assert forall|r: int, c: int| 0 <= r < w && 0 <= c < w implies ((#[trigger] ns.cell(
                r,
                c,
            )).len() == 0 || ns.cell(r, c).len() == ns.share_size) by {
                if r != i {
                    assert(ns.cell(r, c) == os.cell(r, c));
                }
            }
        }
    }

    /// Overwrite every cell of column `j`, in both storage views, and drop
    /// the cached roots.
    #[verifier::loop_isolation(false)]
    pub(crate) fn fill_col(&mut self, j: usize, shares: &Vec<Vec<u8>>)
        requires
            old(self).wf(),
            j < old(self).width,
            shares@.len() == old(self).width,
            forall|r: int|
                0 <= r < shares@.len() ==> (#[trigger] shares@[r])@.len() == old(self).share_size,
        ensures
            final (self).wf(),
            final (self).width == old(self).width,
            final (self).share_size == old(self).share_size,
            final (self).cached_row_roots is None,
            final (self).cached_col_roots is None,
            forall|r: int|
                0 <= r < old(self).width ==> #[trigger] final (self).cell(r, j as int)
                    == shares@[r]@,
            forall|r: int, c: int|
                0 <= r < old(self).width && 0 <= c < old(self).width && c != j
                    ==> #[trigger] final (self).cell(r, c) == old(self).cell(r, c),
    {
        let w = self.width;
        let mut col_copy = clone_shares(shares);
        let col = &mut self.square_col[j];
        core::mem::swap(col, &mut col_copy);
        proof {
            assert forall|r2: int| 0 <= r2 < w implies (#[trigger] self.square_col@[j as int]@[r2])@ == shares@[r2]@ by {
                assert(self.square_col@[j as int].deep_view()[r2] == shares.deep_view()[r2]);
            }
        }
        let ghost mid = *self;
        let mut r: usize = 0;
        while r < w
            invariant
                r <= w,
                self.square_col == mid.square_col,
                self.width == mid.width,
                self.share_size == mid.share_size,
                self.square_row@.len() == w,
                forall|r2: int| 0 <= r2 < w ==> (#[trigger] self.square_row@[r2])@.len() == w,
                forall|r2: int, cc: int|
                    0 <= r2 < r && 0 <= cc < w && cc != j ==> (#[trigger] self.square_row@[r2]@[cc])@ == old(self).cell(r2, cc),
                forall|r2: int|
                    0 <= r2 < r ==> (#[trigger] self.square_row@[r2]@[j as int])@ == shares@[r2]@,
                forall|r2: int, cc: int|
                    r <= r2 < w && 0 <= cc < w ==> (#[trigger] self.square_row@[r2]@[cc])@ == old(
                        self,
                    ).square_row@[r2]@[cc]@,
            decreases w - r,
        {
            let share = clone_share(&self.square_col[j][r]);
            let row = &mut self.square_row[r];
            row.set(j, share);
            r += 1;
        }
        self.reset_roots();
        proof {
            let ns = *self;
            let os = *old(self);
            assert forall|r2: int| 0 <= r2 < w implies #[trigger] ns.cell(r2, j as int)
                == shares@[r2]@ by {}
            assert forall|r2: int, c: int|
                0 <= r2 < w && 0 <= c < w && c != j implies #[trigger] ns.cell(r2, c) == os.cell(
                r2,
                c,
            ) by {}
            assert forall|r2: int, c: int| 0 <= r2 < w && 0 <= c < w implies (
            #[trigger] ns.square_col@[c]@[r2])@ == ns.square_row@[r2]@[c]@ by {}
            assert forall|r2: int, c: int| 0 <= r2 < w && 0 <= c < w implies ((#[trigger] ns.cell(
                r2,
                c,
            )).len() == 0 || ns.cell(r2, c).len() == ns.share_size) by {
                if c != j {
                    assert(ns.cell(r2, c) == os.cell(r2, c));
                }
            }
        }
    }

    /// Drop both root caches.
    fn reset_roots(&mut self)
        ensures
            final (self).cached_row_roots is None,
            final (self).cached_col_roots is None,
            final (self).square_row == old(self).square_row,
            final (self).square_col == old(self).square_col,
            final (self).width == old(self).width,
            final (self).share_size == old(self).share_size,
    {
        self.cached_row_roots = None;
        self.cached_col_roots = None;
    }
}

} // verus!
