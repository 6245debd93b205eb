use ndarray::Array2;
use vstd::prelude::*;

verus! {

/// A two-dimensional byte array, held in an ndarray `Array2<u8>`.
///
/// Verus reads its contents only through `array_cells` and `array_shape`,
/// which the methods below state their effect over.
#[verifier::external_body]
pub struct ByteArray2 {
    inner: Array2<u8>,
}

/// The cells of a two-dimensional byte array in row-major order: the cell in
/// row `r` and column `c` is at position `r * cols + c`.
pub uninterp spec fn array_cells(a: ByteArray2) -> Seq<u8>;

/// The shape `(rows, cols)` of a two-dimensional byte array.
pub uninterp spec fn array_shape(a: ByteArray2) -> (usize, usize);

/// The product of the non-zero axis lengths, which ndarray keeps within
/// `isize::MAX`.
pub open spec fn nonzero_product(shape: (usize, usize)) -> int {
    (if shape.0 == 0 {
        1int
    } else {
        shape.0 as int
    }) * (if shape.1 == 0 {
        1int
    } else {
        shape.1 as int
    })
}

/// The row-major position of cell `(r, c)` in an array with `cols` columns.
pub open spec fn cell_index(r: int, c: int, cols: int) -> int {
    r * cols + c
}

impl ByteArray2 {
    /// Number of rows.
    pub open spec fn rows(self) -> int {
        array_shape(self).0 as int
    }

    /// Number of columns.
    pub open spec fn cols(self) -> int {
        array_shape(self).1 as int
    }

    /// The cell in row `r` and column `c`.
    pub open spec fn at(self, r: int, c: int) -> u8 {
        array_cells(self)[cell_index(r, c, self.cols())]
    }

    /// Calls `ArrayBase::dim`, which returns the shape `(rows, cols)`.
    /// ndarray keeps every array's element count equal to the product of its
    /// axis lengths, and the product of its non-zero axis lengths within
    /// `isize::MAX` (its constructors check both).
    #[verifier::external_body]
    pub fn dim(&self) -> (shape: (usize, usize))
        ensures
            shape == array_shape(*self),
            array_cells(*self).len() == shape.0 * shape.1,
            nonzero_product(shape) <= isize::MAX,
    {
        self.inner.dim()
    }

    /// Calls `Index::index` with `[r, c]`, which reads the cell in row `r`
    /// and column `c`; it panics out of bounds, so the bounds are required.
    #[verifier::external_body]
    pub fn get(&self, r: usize, c: usize) -> (v: u8)
        requires
            r < self.rows(),
            c < self.cols(),
        ensures
            v == self.at(r as int, c as int),
    {
        self.inner[[r, c]]
    }

    /// Calls `IndexMut::index_mut` with `[r, c]` and writes `v` there; the
    /// shape stays, and only that cell changes.
    #[verifier::external_body]
    pub fn set(&mut self, r: usize, c: usize, v: u8)
        requires
            r < old(self).rows(),
            c < old(self).cols(),
        ensures
            array_shape(*final(self)) == array_shape(*old(self)),
            array_cells(*final(self)) == array_cells(*old(self)).update(
                cell_index(r as int, c as int, old(self).cols()),
                v,
            ),
    {
        self.inner[[r, c]] = v;
    }

    /// Calls `Array2::zeros`: an array of the given shape with every cell 0.
    /// It panics when the product of the non-zero axis lengths exceeds
    /// `isize::MAX`.
    #[verifier::external_body]
    pub fn zeros(shape: (usize, usize)) -> (a: ByteArray2)
        requires
            nonzero_product(shape) <= isize::MAX,
        ensures
            array_shape(a) == shape,
            array_cells(a) == Seq::new((shape.0 * shape.1) as nat, |i: int| 0u8),
    {
        ByteArray2 { inner: Array2::<u8>::zeros(shape) }
    }

    /// Calls `Array2::ones`: an array of the given shape with every cell 1.
    /// It panics when the product of the non-zero axis lengths exceeds
    /// `isize::MAX`.
    #[verifier::external_body]
    pub fn ones(shape: (usize, usize)) -> (a: ByteArray2)
        requires
            nonzero_product(shape) <= isize::MAX,
        ensures
            array_shape(a) == shape,
            array_cells(a) == Seq::new((shape.0 * shape.1) as nat, |i: int| 1u8),
    {
        ByteArray2 { inner: Array2::<u8>::ones(shape) }
    }

    /// Calls `Array2::from_shape_vec` with the default (row-major) layout.
    /// It succeeds exactly when the product of the non-zero axis lengths is
    /// within `isize::MAX` and `rows * cols` equals the vector's length, and
    /// then the cells are the vector's elements in order.
    #[verifier::external_body]
    pub fn from_shape_vec(shape: (usize, usize), v: Vec<u8>) -> (res: Option<ByteArray2>)
        ensures
            res is Some <==> (nonzero_product(shape) <= isize::MAX && shape.0 * shape.1
                == v@.len()),
            res matches Some(a) ==> array_shape(a) == shape && array_cells(a) == v@,
    {
        match Array2::<u8>::from_shape_vec(shape, v) {
            Ok(inner) => Some(ByteArray2 { inner }),
            Err(_) => None,
        }
    }
}

} // verus!
