use vstd::prelude::*;

verus! {

use vstd::arithmetic::mul::lemma_mul_is_commutative;
use vstd::arithmetic::div_mod::lemma_fundamental_div_mod;

/// A rectangular, dense, row-major 2D container of fixed-point cell
/// numerators. The first index is the row (`0 <= row < height`), the second
/// the column (`0 <= col < width`); this convention is applied uniformly by
/// every producer and consumer of a grid. Dimensions are fixed at
/// construction; there is no resizing.
pub struct Grid {
    width: usize,
    height: usize,
    cells: Vec<u128>,
}

/// Position of `(row, col)` in a row-major backing store of the given width.
pub open spec fn flat_index(row: int, col: int, width: int) -> int {
    row * width + col
}

/// A row-major position of a cell lies strictly inside the backing store.
pub proof fn lemma_flat_index_in_range(width: int, height: int, row: int, col: int)
    requires
        0 <= row < height,
        0 <= col < width,
    ensures
        0 <= flat_index(row, col, width) < height * width,
{
    assert(0 <= row * width + col < height * width) by (nonlinear_arith)
        requires
            0 <= row < height,
            0 <= col < width,
    ;
}

/// Row-major positions are unique: two in-range coordinate pairs with the
/// same position coincide.
pub proof fn lemma_flat_index_injective(width: int, r1: int, c1: int, r2: int, c2: int)
    requires
        width >= 1,
        0 <= r1,
        0 <= c1 < width,
        0 <= r2,
        0 <= c2 < width,
        flat_index(r1, c1, width) == flat_index(r2, c2, width),
    ensures
        r1 == r2,
        c1 == c2,
{
    assert(r1 == r2 && c1 == c2) by (nonlinear_arith)
        requires
            width >= 1,
            0 <= r1,
            0 <= c1 < width,
            0 <= r2,
            0 <= c2 < width,
            r1 * width + c1 == r2 * width + c2,
    ;
}

impl View for Grid {
    type V = Seq<u128>;

    /// A grid is abstractly its row-major sequence of cell numerators.
    closed spec fn view(&self) -> Seq<u128> {
        self.cells@
    }
}

impl Grid {
    pub closed spec fn spec_width(self) -> int {
        self.width as int
    }

    pub closed spec fn spec_height(self) -> int {
        self.height as int
    }

    /// The numerator stored at `(row, col)`.
    pub closed spec fn cell(self, row: int, col: int) -> u128 {
        self.cells@[flat_index(row, col, self.spec_width())]
    }

    /// The backing store holds exactly one cell per grid position.
    pub closed spec fn wf(self) -> bool {
        &&& self.width >= 1
        &&& self.height >= 1
        &&& self.cells@.len() == self.height * self.width
    }

    /// Builds a grid over an already-filled row-major backing store.
    pub fn from_cells(width: usize, height: usize, cells: Vec<u128>) -> (g: Grid)
        requires
            width >= 1,
            height >= 1,
            cells@.len() == height * width,
        ensures
            g.wf(),
            g.spec_width() == width,
            g.spec_height() == height,
            forall|row: int, col: int|
                0 <= row < height && 0 <= col < width ==> g.cell(row, col) == cells@[flat_index(
                    row,
                    col,
                    width as int,
                )],
    {
        Grid { width, height, cells }
    }

    pub fn width(&self) -> (w: usize)
        ensures
            w == self.spec_width(),
    {
        self.width
    }

    pub fn height(&self) -> (h: usize)
        ensures
            h == self.spec_height(),
    {
        self.height
    }

    pub fn at(&self, row: usize, col: usize) -> (v: u128)
        requires
            self.wf(),
            row < self.spec_height(),
            col < self.spec_width(),
        ensures
            v == self.cell(row as int, col as int),
    {
        let n = self.cells.len();
        proof {
            lemma_flat_index_in_range(
                self.spec_width(),
                self.spec_height(),
                row as int,
                col as int,
            );
            assert(flat_index(row as int, col as int, self.spec_width()) < n);
        }
        self.cells[row * self.width + col]
    }

    /// Two well-formed grids of the same dimensions whose cells agree
    /// everywhere have the same backing store.
    pub proof fn lemma_ext_equal(self, other: Grid)
        requires
            self.wf(),
            other.wf(),
            self.spec_width() == other.spec_width(),
            self.spec_height() == other.spec_height(),
            forall|row: int, col: int|
                0 <= row < self.spec_height() && 0 <= col < self.spec_width() ==> self.cell(
                    row,
                    col,
                ) == other.cell(row, col),
        ensures
            self@ == other@,
    {
        let w = self.spec_width();
        let h = self.spec_height();
        assert forall|idx: int| 0 <= idx < h * w implies self.cells@[idx] == other.cells@[idx] by {
            let row = idx / w;
            let col = idx % w;
            assert(0 <= row < h && 0 <= col < w) by (nonlinear_arith)
                requires
                    0 <= idx < h * w,
                    w >= 1,
                    row == idx / w,
                    col == idx % w,
            ;
            lemma_fundamental_div_mod(idx, w);
            lemma_mul_is_commutative(w, row);
            assert(idx == flat_index(row, col, w));
            assert(self.cell(row, col) == other.cell(row, col));
        }
        assert(self.cells@ =~= other.cells@);
    }
}

} // verus!
