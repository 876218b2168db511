//! The two-dimensional cell container of a tile layer, backed by `ndarray`'s
//! owned two-dimensional array.  Verus cannot declare that array type (its
//! generic parameters are bounded by one of ndarray's own traits), so the
//! container holds it opaquely; the cells are abstracted as the sequence of
//! elements in logical index order (row by row) together with the shape.

use vstd::prelude::*;

use crate::data_types::LayerTile;

verus! {

/// A rectangular grid of decoded tile cells, addressed by row and column
/// from the top-left corner.
#[verifier::external_body]
#[derive(Debug)]
pub struct TileGrid {
    arr: ndarray::Array2<Option<LayerTile>>,
}

/// What a tile grid holds: its cells in logical index order, row by row from
/// the top-left corner.
pub uninterp spec fn grid_cells(a: &TileGrid) -> Seq<Option<LayerTile>>;

/// A tile grid's shape: its row count and its column count.
pub uninterp spec fn grid_dim(a: &TileGrid) -> (int, int);

impl TileGrid {
    /// Relies on ndarray's `Array2::from_shape_vec`: with both axes within
    /// the signed address range and exactly `rows * cols` elements it
    /// succeeds and fills the array with the given elements in row-major
    /// order.  (The axis bounds matter when one axis is zero: ndarray's
    /// shape check multiplies only the nonzero axes, so a zero axis paired
    /// with an oversized one would still be rejected as an overflow.)
    #[verifier::external_body]
    pub fn from_row_major(rows: usize, cols: usize, cells: Vec<Option<LayerTile>>) -> (r: TileGrid)
        requires
            rows <= 0x7fff_ffff_ffff_ffff,
            cols <= 0x7fff_ffff_ffff_ffff,
            rows * cols == cells@.len(),
        ensures
            grid_cells(&r) == cells@,
            grid_dim(&r) == (rows as int, cols as int),
    {
        TileGrid { arr: ndarray::Array2::from_shape_vec((rows, cols), cells).unwrap() }
    }

    /// Relies on ndarray's `ArrayBase::get` at a `(row, col)` index: inside
    /// the shape it returns the element there, outside it nothing; the
    /// element at `(row, col)` is the one at position `row * cols + col` of
    /// the logical row-major order, and an array holds exactly `rows * cols`
    /// elements.
    #[verifier::external_body]
    pub fn get<'a>(&'a self, row: usize, col: usize) -> (r: Option<&'a Option<LayerTile>>)
        ensures
            match r {
                Some(v) => (row as int) < grid_dim(self).0 && (col as int) < grid_dim(self).1
                    && grid_cells(self).len() == grid_dim(self).0 * grid_dim(self).1 && *v
                    == grid_cells(self)[row * grid_dim(self).1 + col],
                None => (row as int) >= grid_dim(self).0 || (col as int) >= grid_dim(self).1,
            },
    {
        self.arr.get((row, col))
    }

    /// Relies on ndarray's `dim`: the array's shape as `(rows, cols)`.
    #[verifier::external_body]
    pub fn dim(&self) -> (r: (usize, usize))
        ensures
            (r.0 as int, r.1 as int) == grid_dim(self),
            grid_cells(self).len() == r.0 * r.1,
    {
        self.arr.dim()
    }
}

} // verus!
