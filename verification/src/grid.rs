//! Sparse rectangular 2D storage, partitioned into square chunks of side `C`.
//!
//! Cells are addressed by signed integer coordinates.  A coordinate `(ix, iy)`
//! lives in chunk `(ix div C, iy div C)` at offset `(ix mod C, iy mod C)`,
//! where `div`/`mod` are the Euclidean (flooring) forms, so the chunk/offset
//! bijection also holds on the negative half of the grid.  Every chunk inside
//! the configured bounds is allocated at construction; there is no lazy growth.

use crate::AlignError;
use vstd::prelude::*;
use vstd::arithmetic::div_mod::{
    lemma_div_is_ordered, lemma_div_multiples_vanish, lemma_fundamental_div_mod,
    lemma_fundamental_div_mod_converse_div, lemma_fundamental_div_mod_converse_mod,
    lemma_mod_bound,
};

verus! {

/// For a positive divisor, the Euclidean quotient lies between the dividend
/// and zero, so dividing an `i64` coordinate by the chunk side never leaves
/// the `i64` range.
proof fn lemma_div_between(x: int, c: int)
    requires
        c >= 1,
    ensures
        x >= 0 ==> 0 <= x / c <= x,
        x < 0 ==> x <= x / c <= 0,
{
    let q = x / c;
    let r = x % c;
    lemma_fundamental_div_mod(x, c);
    lemma_mod_bound(x, c);
    if x >= 0 {
        if q < 0 {
            assert(c * q + r < 0) by (nonlinear_arith)
                requires c >= 1 && q <= -1 && 0 <= r < c;
        }
        if q > x {
            assert(c * q + r > x) by (nonlinear_arith)
                requires c >= 1 && q > x >= 0 && r >= 0;
        }
    } else {
        if q > 0 {
            assert(c * q + r > 0) by (nonlinear_arith)
                requires c >= 1 && q >= 1 && r >= 0;
        }
        if q < x {
            assert(c * q + r < x) by (nonlinear_arith)
                requires c >= 1 && q < x && q <= -1 && 0 <= r < c;
        }
    }
}

/// The chunk/offset split is a bijection: the chunk index times the side
/// plus the intra-chunk offset recomposes the coordinate, and the offset is
/// non-negative — on the negative half of the grid too, because both parts
/// come from Euclidean division.
pub proof fn lemma_chunk_offset_recompose(ix: int, c: int)
    requires
        1 <= c,
    ensures
        ix == c * (ix / c) + ix % c,
        0 <= ix % c < c,
{
    lemma_fundamental_div_mod(ix, c);
    lemma_mod_bound(ix, c);
}

/// Whether the chunk side `c` is positive and small enough for chunk
/// addressing arithmetic on this machine.
pub open spec fn side_ok(c: int) -> bool {
    &&& 1 <= c
    &&& c <= i64::MAX
    &&& c * c <= usize::MAX
}

/// Whether a pair of chunk bounds straddles or touches zero.
pub open spec fn straddles_zero(b: (i64, i64)) -> bool {
    b.0 <= 0 && b.1 >= 0
}

/// Whether a grid of `nx` by `ny` chunks of side `c` fits the machine's
/// integer types: dimensions in cells and the total cell count stay
/// representable.
pub open spec fn counts_fit(nx: int, ny: int, c: int) -> bool {
    &&& nx * c <= usize::MAX
    &&& ny * c <= usize::MAX
    &&& nx * c <= i64::MAX
    &&& ny * c <= i64::MAX
    &&& nx * ny * (c * c) <= usize::MAX
}

/// Number of chunks of side `c` needed to cover `len` cells (`len >= 1`).
pub open spec fn chunks_for(len: int, c: int) -> int {
    (len - 1) / c + 1
}

/// Truncating (round-toward-zero) division, the machine's signed `/`.
pub open spec fn trunc_div(a: int, b: int) -> int {
    if a >= 0 {
        a / b
    } else {
        -((-a) / b)
    }
}

/// One past the last chunk of side `c` touched by cell coordinates below `hi`.
pub open spec fn upper_chunk(hi: int, c: int) -> int {
    trunc_div(hi - 1, c) + 1
}

/// Rectangular chunked sparse map: a dense arena of `C`-by-`C` blocks covering
/// the chunk rectangle `[x_bounds.0, x_bounds.1) x [y_bounds.0, y_bounds.1)`.
///
/// Blocks are stored x-major: the block for chunk `(cx, cy)` sits at arena
/// index `(cx - x_bounds.0) * (y_bounds.1 - y_bounds.0) + (cy - y_bounds.0)`,
/// and inside a block the cell for offset `(ox, oy)` sits at `ox * C + oy`.
pub struct RectChunkedMap<T, const C: usize> {
    blocks: Vec<Vec<T>>,
    /// Chunk bounds on the x axis: first chunk, and one past the last.
    x_bounds: (i64, i64),
    /// Chunk bounds on the y axis: first chunk, and one past the last.
    y_bounds: (i64, i64),
}

impl<T, const C: usize> RectChunkedMap<T, C> {
    /// First chunk index on the x axis, as a mathematical integer.
    pub closed spec fn cx_lo(self) -> int {
        self.x_bounds.0 as int
    }

    /// One past the last chunk index on the x axis.
    pub closed spec fn cx_hi(self) -> int {
        self.x_bounds.1 as int
    }

    /// First chunk index on the y axis.
    pub closed spec fn cy_lo(self) -> int {
        self.y_bounds.0 as int
    }

    /// One past the last chunk index on the y axis.
    pub closed spec fn cy_hi(self) -> int {
        self.y_bounds.1 as int
    }

    /// Number of chunks along the x axis.
    pub open spec fn chunks_x(self) -> int {
        self.cx_hi() - self.cx_lo()
    }

    /// Number of chunks along the y axis.
    pub open spec fn chunks_y(self) -> int {
        self.cy_hi() - self.cy_lo()
    }

    /// Smallest cell coordinate on the x axis.
    pub open spec fn x_lo(self) -> int {
        self.cx_lo() * C
    }

    /// One past the largest cell coordinate on the x axis.
    pub open spec fn x_hi(self) -> int {
        self.cx_hi() * C
    }

    /// Smallest cell coordinate on the y axis.
    pub open spec fn y_lo(self) -> int {
        self.cy_lo() * C
    }

    /// One past the largest cell coordinate on the y axis.
    pub open spec fn y_hi(self) -> int {
        self.cy_hi() * C
    }

    /// Whether the cell coordinate `(ix, iy)` lies inside the allocated bounds.
    pub open spec fn contains(self, ix: int, iy: int) -> bool {
        &&& self.x_lo() <= ix < self.x_hi()
        &&& self.y_lo() <= iy < self.y_hi()
    }

    /// Arena index of the block holding cell `(ix, iy)`.
    closed spec fn block_index(self, ix: int, iy: int) -> int {
        (ix / (C as int) - self.cx_lo()) * self.chunks_y() + (iy / (C as int) - self.cy_lo())
    }

    /// Index of cell `(ix, iy)` inside its block.
    closed spec fn cell_index(ix: int, iy: int) -> int {
        (ix % (C as int)) * (C as int) + (iy % (C as int))
    }

    /// The value stored at cell `(ix, iy)`; meaningful when `contains` holds.
    pub closed spec fn at(self, ix: int, iy: int) -> T {
        self.blocks@[self.block_index(ix, iy)]@[Self::cell_index(ix, iy)]
    }

    /// Structural well-formedness: bounds straddle or touch zero, every block
    /// inside the bounds is allocated with `C * C` cells, and all derived
    /// sizes fit the machine's integer types.
    pub closed spec fn wf(self) -> bool {
        &&& 1 <= C
        &&& C as int <= i64::MAX
        &&& C as int * C as int <= usize::MAX
        &&& self.cx_lo() <= 0 <= self.cx_hi()
        &&& self.cy_lo() <= 0 <= self.cy_hi()
        &&& self.x_lo() >= i64::MIN
        &&& self.x_hi() <= i64::MAX
        &&& self.y_lo() >= i64::MIN
        &&& self.y_hi() <= i64::MAX
        &&& self.chunks_x() * C as int <= usize::MAX
        &&& self.chunks_y() * C as int <= usize::MAX
        &&& self.chunks_x() * C as int <= i64::MAX
        &&& self.chunks_y() * C as int <= i64::MAX
        &&& self.chunks_x() * self.chunks_y() * (C as int * C as int) <= usize::MAX
        &&& self.blocks@.len() == self.chunks_x() * self.chunks_y()
        &&& forall|i: int|
            0 <= i < self.blocks@.len() ==> (#[trigger] self.blocks@[i])@.len() == C as int
                * C as int
    }

    /// Sign and range facts that follow from well-formedness: the value
    /// bounds have the same signs as the chunk bounds, and the chunk counts
    /// fit the machine's integer types.
    proof fn lemma_wf_ranges(self)
        requires
            self.wf(),
        ensures
            i64::MIN <= self.x_lo() <= 0,
            0 <= self.x_hi() <= i64::MAX,
            i64::MIN <= self.y_lo() <= 0,
            0 <= self.y_hi() <= i64::MAX,
            0 <= self.chunks_x() <= usize::MAX,
            0 <= self.chunks_y() <= usize::MAX,
            self.chunks_x() <= i64::MAX,
            self.chunks_y() <= i64::MAX,
            (self.cx_lo() < self.cx_hi()) == (self.x_lo() < self.x_hi()),
            (self.cy_lo() < self.cy_hi()) == (self.y_lo() < self.y_hi()),
    {
        let c = C as int;
        let nx = self.chunks_x();
        let ny = self.chunks_y();
        assert(self.cx_lo() * c <= 0 && self.cx_hi() * c >= 0 && self.cy_lo() * c <= 0
            && self.cy_hi() * c >= 0) by (nonlinear_arith)
            requires
                c >= 1 && self.cx_lo() <= 0 <= self.cx_hi() && self.cy_lo() <= 0 <= self.cy_hi();
        assert(nx <= nx * c && ny <= ny * c) by (nonlinear_arith)
            requires c >= 1 && nx >= 0 && ny >= 0;
        assert((self.cx_lo() < self.cx_hi()) == (self.cx_lo() * c < self.cx_hi() * c))
            by (nonlinear_arith)
            requires c >= 1;
        assert((self.cy_lo() < self.cy_hi()) == (self.cy_lo() * c < self.cy_hi() * c))
            by (nonlinear_arith)
            requires c >= 1;
    }

    /// Bounds and index facts needed to address a contained cell.
    proof fn lemma_locate(self, ix: int, iy: int)
        requires
            self.wf(),
            self.contains(ix, iy),
        ensures
            self.cx_lo() <= ix / (C as int) < self.cx_hi(),
            self.cy_lo() <= iy / (C as int) < self.cy_hi(),
            i64::MIN <= ix / (C as int) <= i64::MAX,
            i64::MIN <= iy / (C as int) <= i64::MAX,
            0 <= ix % (C as int) < C as int,
            0 <= iy % (C as int) < C as int,
            1 <= self.chunks_x() <= usize::MAX,
            1 <= self.chunks_y() <= usize::MAX,
            self.chunks_x() <= i64::MAX,
            self.chunks_y() <= i64::MAX,
            self.chunks_x() * self.chunks_y() <= usize::MAX,
            0 <= self.block_index(ix, iy) < self.blocks@.len(),
            0 <= Self::cell_index(ix, iy) < C as int * C as int,
    {
        let c = C as int;
        self.lemma_wf_ranges();
        lemma_mod_bound(ix, c);
        lemma_mod_bound(iy, c);
        lemma_div_between(ix, c);
        lemma_div_between(iy, c);
        // x_lo <= ix  ==>  cx_lo <= ix / c
        lemma_div_is_ordered(self.cx_lo() * c, ix, c);
        lemma_div_multiples_vanish(self.cx_lo(), c);
        lemma_div_is_ordered(self.cy_lo() * c, iy, c);
        lemma_div_multiples_vanish(self.cy_lo(), c);
        // ix < x_hi  ==>  ix / c <= (x_hi - 1) / c == cx_hi - 1
        assert(self.cx_hi() * c - 1 == (self.cx_hi() - 1) * c + (c - 1)) by (nonlinear_arith);
        assert(self.cy_hi() * c - 1 == (self.cy_hi() - 1) * c + (c - 1)) by (nonlinear_arith);
        lemma_div_is_ordered(ix, self.cx_hi() * c - 1, c);
        lemma_fundamental_div_mod_converse_div(self.cx_hi() * c - 1, c, self.cx_hi() - 1, c - 1);
        lemma_div_is_ordered(iy, self.cy_hi() * c - 1, c);
        lemma_fundamental_div_mod_converse_div(self.cy_hi() * c - 1, c, self.cy_hi() - 1, c - 1);
        let nx = self.chunks_x();
        let ny = self.chunks_y();
        assert(nx <= nx * c && ny <= ny * c) by (nonlinear_arith)
            requires c >= 1 && nx >= 1 && ny >= 1;
        assert(nx * ny <= nx * ny * (c * c)) by (nonlinear_arith)
            requires c >= 1 && nx >= 1 && ny >= 1;
        let qx = ix / c - self.cx_lo();
        let qy = iy / c - self.cy_lo();
        assert(0 <= qx * ny + qy < nx * ny) by (nonlinear_arith)
            requires 0 <= qx <= nx - 1 && 0 <= qy <= ny - 1 && ny >= 1 && nx >= 1;
        let ox = ix % c;
        let oy = iy % c;
        assert(0 <= ox * c + oy < c * c) by (nonlinear_arith)
            requires 0 <= ox <= c - 1 && 0 <= oy <= c - 1 && c >= 1;
    }

    /// Returns the chunk coordinate of the given cell coordinate, by
    /// Euclidean (flooring) division; usable without an instance.
    pub fn chunk_of(index: (i64, i64)) -> (r: (i64, i64))
        requires
            1 <= C,
            C as int <= i64::MAX,
        ensures
            r.0 as int == index.0 as int / (C as int),
            r.1 as int == index.1 as int / (C as int),
    {
        proof {
            lemma_div_between(index.0 as int, C as int);
            lemma_div_between(index.1 as int, C as int);
        }
        let c = C as i64;
        (index.0.checked_div_euclid(c).unwrap(), index.1.checked_div_euclid(c).unwrap())
    }

    /// Returns the offset of the given cell coordinate inside its chunk, by
    /// Euclidean (non-negative) remainder; usable without an instance.
    pub fn array_index_of(index: (i64, i64)) -> (r: (usize, usize))
        requires
            1 <= C,
            C as int <= i64::MAX,
        ensures
            r.0 as int == index.0 as int % (C as int),
            r.1 as int == index.1 as int % (C as int),
    {
        proof {
            lemma_mod_bound(index.0 as int, C as int);
            lemma_mod_bound(index.1 as int, C as int);
        }
        let c = C as i64;
        (
            index.0.checked_rem_euclid(c).unwrap() as usize,
            index.1.checked_rem_euclid(c).unwrap() as usize,
        )
    }

    /// Splits a cell coordinate into its chunk coordinate and intra-chunk
    /// offset; usable without an instance.
    pub fn to_chunked_index(index: (i64, i64)) -> (r: ((i64, i64), (usize, usize)))
        requires
            1 <= C,
            C as int <= i64::MAX,
        ensures
            r.0.0 as int == index.0 as int / (C as int),
            r.0.1 as int == index.1 as int / (C as int),
            r.1.0 as int == index.0 as int % (C as int),
            r.1.1 as int == index.1 as int % (C as int),
    {
        (Self::chunk_of(index), Self::array_index_of(index))
    }

    /// Whether the given cell coordinate lies inside the configured bounds.
    pub fn in_bounds(&self, index: &(i64, i64)) -> (r: bool)
        requires
            self.wf(),
        ensures
            r == self.contains(index.0 as int, index.1 as int),
    {
        proof {
            self.lemma_wf_ranges();
        }
        let c = C as i64;
        (index.0 < self.x_bounds.1 * c) && (index.0 >= self.x_bounds.0 * c)
            && (index.1 < self.y_bounds.1 * c) && (index.1 >= self.y_bounds.0 * c)
    }

    /// Looks up the cell at `index`; `None` exactly when the coordinate is
    /// outside the configured bounds.  Never allocates.
    pub fn get(&self, index: &(i64, i64)) -> (r: Option<&T>)
        requires
            self.wf(),
        ensures
            match r {
                Some(v) => self.contains(index.0 as int, index.1 as int) && *v == self.at(
                    index.0 as int,
                    index.1 as int,
                ),
                None => !self.contains(index.0 as int, index.1 as int),
            },
    {
        if !self.in_bounds(index) {
            return None;
        }
        proof {
            self.lemma_locate(index.0 as int, index.1 as int);
        }
        let c = C as i64;
        let cx = index.0.checked_div_euclid(c).unwrap();
        let cy = index.1.checked_div_euclid(c).unwrap();
        let ox = index.0.checked_rem_euclid(c).unwrap() as usize;
        let oy = index.1.checked_rem_euclid(c).unwrap() as usize;
        let ny = (self.y_bounds.1 - self.y_bounds.0) as usize;
        let bi = ((cx - self.x_bounds.0) as usize) * ny + ((cy - self.y_bounds.0) as usize);
        Some(&self.blocks[bi][ox * C + oy])
    }

    /// No two distinct contained coordinates share both their block index and
    /// their cell index: chunk addressing is a bijection.
    proof fn lemma_addr_unique(self, ix: int, iy: int)
        requires
            self.wf(),
            self.contains(ix, iy),
        ensures
            forall|jx: int, jy: int|
                self.contains(jx, jy) ==> 0 <= #[trigger] self.block_index(jx, jy)
                    < self.blocks@.len(),
            forall|jx: int, jy: int|
                self.contains(jx, jy) ==> 0 <= #[trigger] Self::cell_index(jx, jy) < C as int
                    * C as int,
            forall|jx: int, jy: int|
                self.contains(jx, jy) && #[trigger] self.block_index(jx, jy) == self.block_index(
                    ix,
                    iy,
                ) && #[trigger] Self::cell_index(jx, jy) == Self::cell_index(ix, iy) ==> jx == ix
                    && jy == iy,
    {
        let c = C as int;
        let ny = self.chunks_y();
        assert forall|jx: int, jy: int| self.contains(jx, jy) implies 0
            <= #[trigger] self.block_index(jx, jy) < self.blocks@.len() by {
            self.lemma_locate(jx, jy);
        }
        assert forall|jx: int, jy: int| self.contains(jx, jy) implies 0
            <= #[trigger] Self::cell_index(jx, jy) < C as int * C as int by {
            self.lemma_locate(jx, jy);
        }
        assert forall|jx: int, jy: int|
            self.contains(jx, jy) && #[trigger] self.block_index(jx, jy) == self.block_index(
                ix,
                iy,
            ) && #[trigger] Self::cell_index(jx, jy) == Self::cell_index(ix, iy) implies jx == ix
            && jy == iy by {
            self.lemma_locate(ix, iy);
            self.lemma_locate(jx, jy);
            let oxi = ix % c;
            let oyi = iy % c;
            let oxj = jx % c;
            let oyj = jy % c;
            assert(oxi == oxj && oyi == oyj) by (nonlinear_arith)
                requires
                    oxi * c + oyi == oxj * c + oyj,
                    0 <= oxi < c,
                    0 <= oxj < c,
                    0 <= oyi < c,
                    0 <= oyj < c;
            let qxi = ix / c - self.cx_lo();
            let qyi = iy / c - self.cy_lo();
            let qxj = jx / c - self.cx_lo();
            let qyj = jy / c - self.cy_lo();
            assert(qxi == qxj && qyi == qyj) by (nonlinear_arith)
                requires
                    qxi * ny + qyi == qxj * ny + qyj,
                    0 <= qyi < ny,
                    0 <= qyj < ny;
            lemma_fundamental_div_mod(ix, c);
            lemma_fundamental_div_mod(jx, c);
            lemma_fundamental_div_mod(iy, c);
            lemma_fundamental_div_mod(jy, c);
        }
    }

    /// Looks up the cell at `index` for writing; `None` exactly when the
    /// coordinate is outside the configured bounds.  Writing through the
    /// returned reference changes that cell and nothing else.
    pub fn get_mut(&mut self, index: &(i64, i64)) -> (r: Option<&mut T>)
        requires
            old(self).wf(),
        ensures
            r.is_some() == old(self).contains(index.0 as int, index.1 as int),
            r.is_none() ==> *final(self) == *old(self),
            r.is_some() ==> {
                &&& *r.unwrap() == old(self).at(index.0 as int, index.1 as int)
                &&& final(self).wf()
                &&& final(self).cx_lo() == old(self).cx_lo()
                &&& final(self).cx_hi() == old(self).cx_hi()
                &&& final(self).cy_lo() == old(self).cy_lo()
                &&& final(self).cy_hi() == old(self).cy_hi()
                &&& final(self).at(index.0 as int, index.1 as int) == *final(r.unwrap())
                &&& forall|jx: int, jy: int|
                    old(self).contains(jx, jy) && (jx != index.0 as int || jy != index.1 as int)
                        ==> #[trigger] final(self).at(jx, jy) == old(self).at(jx, jy)
            },
    {
        if !self.in_bounds(index) {
            return None;
        }
        proof {
            self.lemma_locate(index.0 as int, index.1 as int);
            self.lemma_addr_unique(index.0 as int, index.1 as int);
        }
        let c = C as i64;
        let cx = index.0.checked_div_euclid(c).unwrap();
        let cy = index.1.checked_div_euclid(c).unwrap();
        let ox = index.0.checked_rem_euclid(c).unwrap() as usize;
        let oy = index.1.checked_rem_euclid(c).unwrap() as usize;
        let ny = (self.y_bounds.1 - self.y_bounds.0) as usize;
        let bi = ((cx - self.x_bounds.0) as usize) * ny + ((cy - self.y_bounds.0) as usize);
        Some(&mut self.blocks[bi][ox * C + oy])
    }

    /// Stores `value` at `index` if the coordinate is in bounds and reports
    /// whether it was; an out-of-bounds store leaves the map unchanged.
    pub fn set(&mut self, index: &(i64, i64), value: T) -> (r: bool)
        requires
            old(self).wf(),
        ensures
            r == old(self).contains(index.0 as int, index.1 as int),
            !r ==> *final(self) == *old(self),
            r ==> {
                &&& final(self).wf()
                &&& final(self).cx_lo() == old(self).cx_lo()
                &&& final(self).cx_hi() == old(self).cx_hi()
                &&& final(self).cy_lo() == old(self).cy_lo()
                &&& final(self).cy_hi() == old(self).cy_hi()
                &&& final(self).at(index.0 as int, index.1 as int) == value
                &&& forall|jx: int, jy: int|
                    old(self).contains(jx, jy) && (jx != index.0 as int || jy != index.1 as int)
                        ==> #[trigger] final(self).at(jx, jy) == old(self).at(jx, jy)
            },
    {
        match self.get_mut(index) {
            Some(cell) => {
                *cell = value;
                true
            },
            None => false,
        }
    }
}

impl<T: Default + Copy, const C: usize> RectChunkedMap<T, C> {
    /// One freshly allocated chunk block, every cell holding `fill`.
    fn filled_block(fill: T) -> (b: Vec<T>)
        requires
            side_ok(C as int),
        ensures
            b@.len() == C as int * C as int,
            forall|k: int| 0 <= k < b@.len() ==> b@[k] == fill,
    {
        let n = C * C;
        let mut b: Vec<T> = Vec::new();
        while b.len() < n
            invariant
                b@.len() <= n,
                forall|k: int| 0 <= k < b@.len() ==> b@[k] == fill,
            decreases n - b.len(),
        {
            b.push(fill);
        }
        b
    }

    /// Allocates every chunk in the given rectangle, every cell holding
    /// `fill`.  The bounds are taken as given; callers check them first.
    fn build(chunks_x: (i64, i64), chunks_y: (i64, i64), fill: T) -> (r: Self)
        requires
            side_ok(C as int),
            straddles_zero(chunks_x),
            straddles_zero(chunks_y),
            counts_fit(
                chunks_x.1 as int - chunks_x.0 as int,
                chunks_y.1 as int - chunks_y.0 as int,
                C as int,
            ),
        ensures
            r.wf(),
            r.cx_lo() == chunks_x.0 as int,
            r.cx_hi() == chunks_x.1 as int,
            r.cy_lo() == chunks_y.0 as int,
            r.cy_hi() == chunks_y.1 as int,
            forall|ix: int, iy: int| r.contains(ix, iy) ==> #[trigger] r.at(ix, iy) == fill,
    {
        proof {
            let c = C as int;
            let nx = chunks_x.1 as int - chunks_x.0 as int;
            let ny = chunks_y.1 as int - chunks_y.0 as int;
            assert(nx <= nx * c && ny <= ny * c && nx * ny <= nx * ny * (c * c))
                by (nonlinear_arith)
                requires c >= 1 && nx >= 0 && ny >= 0;
            assert(-(nx * c) <= chunks_x.0 as int * c && chunks_x.1 as int * c <= nx * c)
                by (nonlinear_arith)
                requires
                    c >= 1 && chunks_x.0 as int <= 0 <= chunks_x.1 as int && nx == chunks_x.1 as int
                        - chunks_x.0 as int;
            assert(-(ny * c) <= chunks_y.0 as int * c && chunks_y.1 as int * c <= ny * c)
                by (nonlinear_arith)
                requires
                    c >= 1 && chunks_y.0 as int <= 0 <= chunks_y.1 as int && ny == chunks_y.1 as int
                        - chunks_y.0 as int;
        }
        let nx = (chunks_x.1 - chunks_x.0) as usize;
        let ny = (chunks_y.1 - chunks_y.0) as usize;
        let total = nx * ny;
        let mut blocks: Vec<Vec<T>> = Vec::new();
        while blocks.len() < total
            invariant
                side_ok(C as int),
                blocks@.len() <= total,
                forall|i: int|
                    0 <= i < blocks@.len() ==> (#[trigger] blocks@[i])@.len() == C as int
                        * C as int,
                forall|i: int, k: int|
                    0 <= i < blocks@.len() && 0 <= k < C as int * C as int
                        ==> #[trigger] blocks@[i]@[k] == fill,
            decreases total - blocks.len(),
        {
            blocks.push(Self::filled_block(fill));
        }
        let r = RectChunkedMap { blocks, x_bounds: chunks_x, y_bounds: chunks_y };
        proof {
            assert forall|ix: int, iy: int| r.contains(ix, iy) implies #[trigger] r.at(ix, iy)
                == fill by {
                r.lemma_locate(ix, iy);
            }
        }
        r
    }

    /// Allocates the given chunk rectangle, every cell holding the type's
    /// default value; fails with a configuration error when one of the
    /// bounds does not straddle or touch zero.
    pub fn with_chunks(chunks_x: (i64, i64), chunks_y: (i64, i64)) -> (r: Result<
        Self,
        AlignError,
    >)
        requires
            side_ok(C as int),
            straddles_zero(chunks_x) && straddles_zero(chunks_y) ==> counts_fit(
                chunks_x.1 as int - chunks_x.0 as int,
                chunks_y.1 as int - chunks_y.0 as int,
                C as int,
            ),
        ensures
            r is Ok <==> straddles_zero(chunks_x) && straddles_zero(chunks_y),
            r matches Err(e) ==> e == AlignError::Configuration,
            r matches Ok(m) ==> {
                &&& m.wf()
                &&& m.cx_lo() == chunks_x.0 as int
                &&& m.cx_hi() == chunks_x.1 as int
                &&& m.cy_lo() == chunks_y.0 as int
                &&& m.cy_hi() == chunks_y.1 as int
                &&& forall|ix: int, iy: int|
                    m.contains(ix, iy) ==> call_ensures(T::default, (), #[trigger] m.at(ix, iy))
                &&& forall|ix: int, iy: int, jx: int, jy: int|
                    m.contains(ix, iy) && m.contains(jx, jy) ==> #[trigger] m.at(ix, iy)
                        == #[trigger] m.at(jx, jy)
            },
    {
        if chunks_x.0 > 0 || chunks_y.0 > 0 || chunks_x.1 < 0 || chunks_y.1 < 0 {
            return Err(AlignError::Configuration);
        }
        Ok(Self::build(chunks_x, chunks_y, T::default()))
    }

    /// Allocates a rectangle of `size.0` by `size.1` chunks centered on the
    /// origin, the extra chunk of an odd count going to the positive side;
    /// every cell holds the type's default value.
    pub fn with_chunks_centered(size: (usize, usize)) -> (r: Self)
        requires
            side_ok(C as int),
            size.0 as int <= i64::MAX,
            size.1 as int <= i64::MAX,
            counts_fit(size.0 as int, size.1 as int, C as int),
        ensures
            r.wf(),
            r.cx_lo() == -(size.0 as int / 2),
            r.cx_hi() == size.0 as int / 2 + size.0 as int % 2,
            r.cy_lo() == -(size.1 as int / 2),
            r.cy_hi() == size.1 as int / 2 + size.1 as int % 2,
            r.chunks_x() == size.0 as int,
            r.chunks_y() == size.1 as int,
            forall|ix: int, iy: int|
                r.contains(ix, iy) ==> call_ensures(T::default, (), #[trigger] r.at(ix, iy)),
            forall|ix: int, iy: int, jx: int, jy: int|
                r.contains(ix, iy) && r.contains(jx, jy) ==> #[trigger] r.at(ix, iy)
                    == #[trigger] r.at(jx, jy),
    {
        proof {
            lemma_fundamental_div_mod(size.0 as int, 2);
            lemma_fundamental_div_mod(size.1 as int, 2);
        }
        let half_x = size.0 / 2;
        let half_y = size.1 / 2;
        let chunks_x = (-(half_x as i64), (half_x + size.0 % 2) as i64);
        let chunks_y = (-(half_y as i64), (half_y + size.1 % 2) as i64);
        Self::build(chunks_x, chunks_y, T::default())
    }

    /// Allocates enough centered chunks to cover `size.0` by `size.1` cells;
    /// every cell holds the type's default value.
    pub fn with_size_centered(size: (usize, usize)) -> (r: Self)
        requires
            side_ok(C as int),
            1 <= size.0,
            1 <= size.1,
            size.0 as int <= i64::MAX,
            size.1 as int <= i64::MAX,
            counts_fit(chunks_for(size.0 as int, C as int), chunks_for(size.1 as int, C as int), C as int),
        ensures
            r.wf(),
            r.chunks_x() == chunks_for(size.0 as int, C as int),
            r.chunks_y() == chunks_for(size.1 as int, C as int),
            r.cx_lo() == -(chunks_for(size.0 as int, C as int) / 2),
            r.cx_hi() == chunks_for(size.0 as int, C as int) / 2 + chunks_for(
                size.0 as int,
                C as int,
            ) % 2,
            r.cy_lo() == -(chunks_for(size.1 as int, C as int) / 2),
            r.cy_hi() == chunks_for(size.1 as int, C as int) / 2 + chunks_for(
                size.1 as int,
                C as int,
            ) % 2,
            r.x_hi() - r.x_lo() >= size.0 as int,
            r.y_hi() - r.y_lo() >= size.1 as int,
            forall|ix: int, iy: int|
                r.contains(ix, iy) ==> call_ensures(T::default, (), #[trigger] r.at(ix, iy)),
            forall|ix: int, iy: int, jx: int, jy: int|
                r.contains(ix, iy) && r.contains(jx, jy) ==> #[trigger] r.at(ix, iy)
                    == #[trigger] r.at(jx, jy),
    {
        proof {
            lemma_div_between(size.0 as int - 1, C as int);
            lemma_div_between(size.1 as int - 1, C as int);
        }
        let r = Self::with_chunks_centered(((size.0 - 1) / C + 1, (size.1 - 1) / C + 1));
        proof {
            // enough chunks are allocated to cover the requested cell count:
            // with q = (n - 1) / c chunks before rounding, (q + 1) * c >= n
            let c = C as int;
            let qx = (size.0 as int - 1) / c;
            let qy = (size.1 as int - 1) / c;
            lemma_fundamental_div_mod(size.0 as int - 1, c);
            lemma_fundamental_div_mod(size.1 as int - 1, c);
            lemma_mod_bound(size.0 as int - 1, c);
            lemma_mod_bound(size.1 as int - 1, c);
            assert((qx + 1) * c >= size.0 as int) by (nonlinear_arith)
                requires size.0 as int - 1 == c * qx + (size.0 as int - 1) % c
                    && (size.0 as int - 1) % c < c;
            assert((qy + 1) * c >= size.1 as int) by (nonlinear_arith)
                requires size.1 as int - 1 == c * qy + (size.1 as int - 1) % c
                    && (size.1 as int - 1) % c < c;
            assert((r.cx_hi() - r.cx_lo()) * c == r.cx_hi() * c - r.cx_lo() * c)
                by (nonlinear_arith);
            assert((r.cy_hi() - r.cy_lo()) * c == r.cy_hi() * c - r.cy_lo() * c)
                by (nonlinear_arith);
        }
        r
    }

    /// Allocates the chunks covering the cell-coordinate rectangle
    /// `[size_x.0, size_x.1) x [size_y.0, size_y.1)`, the lower bound
    /// flooring and the upper bound rounding away from the axis as the
    /// machine's truncating division does; fails with a configuration error
    /// when the covered chunk bounds do not straddle or touch zero.
    pub fn with_size(size_x: (i64, i64), size_y: (i64, i64)) -> (r: Result<Self, AlignError>)
        requires
            side_ok(C as int),
            size_x.1 as int > i64::MIN,
            size_y.1 as int > i64::MIN,
            (size_x.0 as int / (C as int) <= 0 && upper_chunk(size_x.1 as int, C as int) >= 0
                && size_y.0 as int / (C as int) <= 0 && upper_chunk(size_y.1 as int, C as int)
                >= 0) ==> counts_fit(
                upper_chunk(size_x.1 as int, C as int) - size_x.0 as int / (C as int),
                upper_chunk(size_y.1 as int, C as int) - size_y.0 as int / (C as int),
                C as int,
            ),
        ensures
            r is Ok <==> (size_x.0 as int / (C as int) <= 0 && upper_chunk(
                size_x.1 as int,
                C as int,
            ) >= 0 && size_y.0 as int / (C as int) <= 0 && upper_chunk(size_y.1 as int, C as int)
                >= 0),
            r matches Err(e) ==> e == AlignError::Configuration,
            r matches Ok(m) ==> {
                &&& m.wf()
                &&& m.cx_lo() == size_x.0 as int / (C as int)
                &&& m.cx_hi() == upper_chunk(size_x.1 as int, C as int)
                &&& m.cy_lo() == size_y.0 as int / (C as int)
                &&& m.cy_hi() == upper_chunk(size_y.1 as int, C as int)
                &&& forall|ix: int, iy: int|
                    m.contains(ix, iy) ==> call_ensures(T::default, (), #[trigger] m.at(ix, iy))
                &&& forall|ix: int, iy: int, jx: int, jy: int|
                    m.contains(ix, iy) && m.contains(jx, jy) ==> #[trigger] m.at(ix, iy)
                        == #[trigger] m.at(jx, jy)
            },
    {
        proof {
            lemma_div_between(size_x.0 as int, C as int);
            lemma_div_between(size_y.0 as int, C as int);
            lemma_div_between(size_x.1 as int - 1, C as int);
            lemma_div_between(-(size_x.1 as int - 1), C as int);
            lemma_div_between(size_y.1 as int - 1, C as int);
            lemma_div_between(-(size_y.1 as int - 1), C as int);
        }
        let c = C as i64;
        let lo_x = size_x.0.checked_div_euclid(c).unwrap();
        let hi_x = (size_x.1 - 1).checked_div(c).unwrap() + 1;
        let lo_y = size_y.0.checked_div_euclid(c).unwrap();
        let hi_y = (size_y.1 - 1).checked_div(c).unwrap() + 1;
        Self::with_chunks((lo_x, hi_x), (lo_y, hi_y))
    }
}

impl<T, const C: usize> RectChunkedMap<T, C> {
    /// Number of allocated chunks.
    pub fn len_chunks(&self) -> (r: usize)
        requires
            self.wf(),
        ensures
            r == self.chunks_x() * self.chunks_y(),
    {
        proof {
            self.lemma_wf_ranges();
            let c = C as int;
            let nx = self.chunks_x();
            let ny = self.chunks_y();
            assert(nx * ny <= nx * ny * (c * c)) by (nonlinear_arith)
                requires c >= 1 && nx >= 0 && ny >= 0;
        }
        ((self.x_bounds.1 - self.x_bounds.0) as usize) * ((self.y_bounds.1 - self.y_bounds.0)
            as usize)
    }

    /// Number of allocated cells (`len_chunks * C * C`).
    pub fn len(&self) -> (r: usize)
        requires
            self.wf(),
        ensures
            r == self.chunks_x() * self.chunks_y() * (C as int * C as int),
    {
        proof {
            let c = C as int;
            let n = self.chunks_x() * self.chunks_y();
            assert(n * c <= n * (c * c) && n * c * c == n * (c * c)) by (nonlinear_arith)
                requires c >= 1 && n >= 0;
        }
        self.len_chunks() * C * C
    }

    /// Size of the map in chunks, per axis.
    pub fn dim_chunks(&self) -> (r: (usize, usize))
        requires
            self.wf(),
        ensures
            r.0 == self.chunks_x(),
            r.1 == self.chunks_y(),
    {
        proof {
            self.lemma_wf_ranges();
        }
        (
            (self.x_bounds.1 - self.x_bounds.0) as usize,
            (self.y_bounds.1 - self.y_bounds.0) as usize,
        )
    }

    /// Size of the map in cells, per axis (`chunks * C`).
    pub fn dim(&self) -> (r: (usize, usize))
        requires
            self.wf(),
        ensures
            r.0 == self.chunks_x() * C as int,
            r.1 == self.chunks_y() * C as int,
    {
        let (nx, ny) = self.dim_chunks();
        (nx * C, ny * C)
    }

    /// Chunk bounds on the x axis: first chunk, and one past the last.
    pub fn x_chunks(&self) -> (r: (i64, i64))
        ensures
            r.0 as int == self.cx_lo(),
            r.1 as int == self.cx_hi(),
    {
        self.x_bounds
    }

    /// Chunk bounds on the y axis: first chunk, and one past the last.
    pub fn y_chunks(&self) -> (r: (i64, i64))
        ensures
            r.0 as int == self.cy_lo(),
            r.1 as int == self.cy_hi(),
    {
        self.y_bounds
    }

    /// Cell-coordinate bounds on the x axis: smallest coordinate, and one
    /// past the largest.
    pub fn x_dim(&self) -> (r: (i64, i64))
        requires
            self.wf(),
        ensures
            r.0 as int == self.x_lo(),
            r.1 as int == self.x_hi(),
    {
        proof {
            self.lemma_wf_ranges();
        }
        let c = C as i64;
        (self.x_bounds.0 * c, self.x_bounds.1 * c)
    }

    /// Cell-coordinate bounds on the y axis: smallest coordinate, and one
    /// past the largest.
    pub fn y_dim(&self) -> (r: (i64, i64))
        requires
            self.wf(),
        ensures
            r.0 as int == self.y_lo(),
            r.1 as int == self.y_hi(),
    {
        proof {
            self.lemma_wf_ranges();
        }
        let c = C as i64;
        (self.y_bounds.0 * c, self.y_bounds.1 * c)
    }

    /// The x axis cell-coordinate range, as a half-open range.
    pub fn x_range(&self) -> (r: core::ops::Range<i64>)
        requires
            self.wf(),
        ensures
            r.start as int == self.x_lo(),
            r.end as int == self.x_hi(),
    {
        let (lo, hi) = self.x_dim();
        lo..hi
    }

    /// The y axis cell-coordinate range, as a half-open range.
    pub fn y_range(&self) -> (r: core::ops::Range<i64>)
        requires
            self.wf(),
        ensures
            r.start as int == self.y_lo(),
            r.end as int == self.y_hi(),
    {
        let (lo, hi) = self.y_dim();
        lo..hi
    }
}

/// A walk over every allocated cell of a [`RectChunkedMap`], x varying
/// fastest.  The cursor owns its own position and never mutates the map;
/// restart by asking the map for a fresh cursor.
pub struct GridCursor<'a, T, const C: usize> {
    map: &'a RectChunkedMap<T, C>,
    next_x: i64,
    next_y: i64,
}

impl<'a, T, const C: usize> GridCursor<'a, T, C> {
    /// The map being walked.
    pub closed spec fn target(self) -> RectChunkedMap<T, C> {
        *self.map
    }

    /// The coordinate that the next call of `next` will yield.
    pub closed spec fn pos(self) -> (int, int) {
        (self.next_x as int, self.next_y as int)
    }

    /// Whether the walk has yielded every cell.
    pub open spec fn done(self) -> bool {
        self.pos().1 >= self.target().y_hi()
    }

    /// The position after yielding the cell at `pos`: one step in x, wrapping
    /// to the start of the next row.
    pub open spec fn step(self) -> (int, int) {
        if self.pos().0 + 1 < self.target().x_hi() {
            (self.pos().0 + 1, self.pos().1)
        } else {
            (self.target().x_lo(), self.pos().1 + 1)
        }
    }

    /// Cursor well-formedness: the position is a contained cell, or rests at
    /// the row one past the end with x reset.
    pub closed spec fn wf(self) -> bool {
        &&& self.target().wf()
        &&& (self.target().contains(self.pos().0, self.pos().1) || (self.pos().0
            == self.target().x_lo() && self.pos().1 == self.target().y_hi()))
    }
}

impl<'a, T: Copy, const C: usize> GridCursor<'a, T, C> {
    /// Yields the cell at the cursor's position together with its coordinate
    /// and advances; `None` once every allocated cell has been yielded.
    pub fn next(&mut self) -> (r: Option<((i64, i64), T)>)
        requires
            old(self).wf(),
        ensures
            final(self).wf(),
            final(self).target() == old(self).target(),
            r is Some <==> !old(self).done(),
            old(self).done() ==> final(self).pos() == old(self).pos(),
            !old(self).done() ==> {
                &&& r.unwrap().0.0 as int == old(self).pos().0
                &&& r.unwrap().0.1 as int == old(self).pos().1
                &&& r.unwrap().1 == old(self).target().at(old(self).pos().0, old(self).pos().1)
                &&& final(self).pos() == old(self).step()
            },
    {
        let (x_lo, x_hi) = self.map.x_dim();
        let (_, y_hi) = self.map.y_dim();
        if self.next_y >= y_hi {
            return None;
        }
        let coord = (self.next_x, self.next_y);
        let v = *self.map.get(&coord).unwrap();
        if self.next_x + 1 < x_hi {
            self.next_x = self.next_x + 1;
        } else {
            self.next_x = x_lo;
            self.next_y = self.next_y + 1;
        }
        Some((coord, v))
    }
}

impl<T, const C: usize> RectChunkedMap<T, C> {
    /// Cell coordinate at rank `k` of the x-fastest walk order.
    pub open spec fn coord_of_rank(self, k: int) -> (int, int) {
        let w = self.x_hi() - self.x_lo();
        (self.x_lo() + k % w, self.y_lo() + k / w)
    }

    /// Starts a fresh walk over every allocated cell, x varying fastest.
    pub fn cursor(&self) -> (cur: GridCursor<'_, T, C>)
        requires
            self.wf(),
        ensures
            cur.wf(),
            cur.target() == *self,
            self.chunks_x() > 0 && self.chunks_y() > 0 ==> cur.pos() == (
                self.x_lo(),
                self.y_lo(),
            ) && !cur.done(),
            !(self.chunks_x() > 0 && self.chunks_y() > 0) ==> cur.done(),
    {
        proof {
            self.lemma_wf_ranges();
        }
        let (x_lo, x_hi) = self.x_dim();
        let (y_lo, y_hi) = self.y_dim();
        if x_lo < x_hi && y_lo < y_hi {
            GridCursor { map: self, next_x: x_lo, next_y: y_lo }
        } else {
            GridCursor { map: self, next_x: x_lo, next_y: y_hi }
        }
    }
}

impl<T: Copy, const C: usize> RectChunkedMap<T, C> {
    /// Every allocated cell with its coordinate, x varying fastest: entry
    /// `k` is exactly the cell at `coord_of_rank(k)`, so each cell appears
    /// exactly once.
    pub fn entries(&self) -> (r: Vec<((i64, i64), T)>)
        requires
            self.wf(),
        ensures
            r@.len() == self.chunks_x() * self.chunks_y() * (C as int * C as int),
            forall|k: int|
                0 <= k < r@.len() ==> {
                    let p = self.coord_of_rank(k);
                    &&& (#[trigger] r@[k]).0.0 as int == p.0
                    &&& r@[k].0.1 as int == p.1
                    &&& r@[k].1 == self.at(p.0, p.1)
                },
    {
        let w = Ghost(self.x_hi() - self.x_lo());
        let h = Ghost(self.y_hi() - self.y_lo());
        proof {
            self.lemma_wf_ranges();
            let c = C as int;
            let nx = self.chunks_x();
            let ny = self.chunks_y();
            assert((nx * c) * (ny * c) == nx * ny * (c * c)) by (nonlinear_arith);
            assert((self.cx_hi() - self.cx_lo()) * c == self.cx_hi() * c - self.cx_lo() * c)
                by (nonlinear_arith);
            assert((self.cy_hi() - self.cy_lo()) * c == self.cy_hi() * c - self.cy_lo() * c)
                by (nonlinear_arith);
            assert(h@ * w@ == w@ * h@ && 0 * w@ == 0) by (nonlinear_arith);
            assert(nx == 0 || ny == 0 ==> nx * ny * (c * c) == 0) by (nonlinear_arith);
        }
        let total = self.len();
        let mut cur = self.cursor();
        let mut r: Vec<((i64, i64), T)> = Vec::new();
        while r.len() < total
            invariant
                self.wf(),
                cur.wf(),
                cur.target() == *self,
                w@ == self.x_hi() - self.x_lo(),
                h@ == self.y_hi() - self.y_lo(),
                total == self.chunks_x() * self.chunks_y() * (C as int * C as int),
                total == w@ * h@,
                r@.len() == (cur.pos().1 - self.y_lo()) * w@ + (cur.pos().0 - self.x_lo()),
                r@.len() <= total,
                cur.done() ==> r@.len() == total,
                forall|k: int|
                    0 <= k < r@.len() ==> {
                        let p = self.coord_of_rank(k);
                        &&& (#[trigger] r@[k]).0.0 as int == p.0
                        &&& r@[k].0.1 as int == p.1
                        &&& r@[k].1 == self.at(p.0, p.1)
                    },
            decreases total - r@.len(),
        {
            let ghost k0 = r@.len() as int;
            let ghost px = cur.pos().0;
            let ghost py = cur.pos().1;
            let e = cur.next().unwrap();
            r.push(e);
            proof {
                // the new entry sits at the rank of the coordinate it came from
                lemma_fundamental_div_mod_converse_div(k0, w@, py - self.y_lo(), px - self.x_lo());
                lemma_fundamental_div_mod_converse_mod(k0, w@, py - self.y_lo(), px - self.x_lo());
                // stepping to the next row advances the rank by exactly one
                assert((py + 1 - self.y_lo()) * w@ == (py - self.y_lo()) * w@ + w@)
                    by (nonlinear_arith);
                assert((py + 1 - self.y_lo()) * w@ <= h@ * w@ && h@ * w@ == w@ * h@)
                    by (nonlinear_arith)
                    requires py + 1 <= self.y_hi() && w@ >= 0 && h@ == self.y_hi() - self.y_lo();
            }
        }
        r
    }
}

impl<T: Copy, const C: usize> Clone for RectChunkedMap<T, C> {
    /// A fresh map with the same bounds and, cell for cell, the same values.
    fn clone(&self) -> (r: Self)
        ensures
            r.cx_lo() == self.cx_lo(),
            r.cx_hi() == self.cx_hi(),
            r.cy_lo() == self.cy_lo(),
            r.cy_hi() == self.cy_hi(),
            self.wf() ==> r.wf(),
            self.wf() ==> forall|ix: int, iy: int|
                self.contains(ix, iy) ==> #[trigger] r.at(ix, iy) == self.at(ix, iy),
    {
        let n = self.blocks.len();
        let mut blocks: Vec<Vec<T>> = Vec::new();
        while blocks.len() < n
            invariant
                blocks@.len() <= n,
                n == self.blocks@.len(),
                forall|i: int|
                    0 <= i < blocks@.len() ==> (#[trigger] blocks@[i])@ == self.blocks@[i]@,
            decreases n - blocks.len(),
        {
            let src = &self.blocks[blocks.len()];
            let mut dst: Vec<T> = Vec::new();
            while dst.len() < src.len()
                invariant
                    dst@.len() <= src@.len(),
                    forall|k: int| 0 <= k < dst@.len() ==> dst@[k] == src@[k],
                decreases src.len() - dst.len(),
            {
                dst.push(src[dst.len()]);
            }
            proof {
                assert(dst@ =~= src@);
            }
            blocks.push(dst);
        }
        let r = RectChunkedMap { blocks, x_bounds: self.x_bounds, y_bounds: self.y_bounds };
        proof {
            if self.wf() {
                assert forall|ix: int, iy: int| self.contains(ix, iy) implies #[trigger] r.at(
                    ix,
                    iy,
                ) == self.at(ix, iy) by {
                    self.lemma_locate(ix, iy);
                }
            }
        }
        r
    }
}

impl<T: Default, const C: usize> Default for RectChunkedMap<T, C> {
    /// The empty map: no chunks, all bounds at zero.
    fn default() -> (r: Self)
        ensures
            r.cx_lo() == 0 && r.cx_hi() == 0,
            r.cy_lo() == 0 && r.cy_hi() == 0,
            side_ok(C as int) ==> r.wf(),
    {
        proof {
            let c = C as int;
            assert(0 * c == 0 && 0 * 0 * (c * c) == 0) by (nonlinear_arith);
        }
        RectChunkedMap { blocks: Vec::new(), x_bounds: (0, 0), y_bounds: (0, 0) }
    }
}

} // verus!
