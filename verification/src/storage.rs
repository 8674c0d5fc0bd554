use vstd::prelude::*;
use crate::cell::Cell;

verus! {

/// The two-dimensional array that backs a board. The array itself lives in
/// `ndarray`; the verifier sees it only through [`array_shape`],
/// [`array_cells`] and the functions of this module.
#[verifier::external_body]
#[derive(Debug)]
pub struct CellArray {
    inner: ndarray::Array2<Cell>,
}

/// The lengths of the two axes of the array: first the number of columns
/// (the range of `x`), then the number of rows (the range of `y`).
pub uninterp spec fn array_shape(a: CellArray) -> (usize, usize);

/// The cells that the array holds, keyed by `(x, y)`. The contracts of this
/// module speak of this map at indices inside the shape only.
pub uninterp spec fn array_cells(a: CellArray) -> Map<(int, int), Cell>;

/// `ndarray::Array2::default` with the shape `(width, height)`: an array of
/// that shape in which every element is `Cell::default()`. The call panics
/// where the product of the axis lengths that are not zero overflows
/// `isize`, and the allocation behind it where the byte count does;
/// `requires` keeps both away, a cell taking at most four bytes.
#[verifier::external_body]
pub(crate) fn array_default(width: usize, height: usize) -> (a: CellArray)
    requires
        width <= isize::MAX,
        height <= isize::MAX,
        width * height * 4 <= isize::MAX,
    ensures
        array_shape(a) == (width, height),
        forall|x: int, y: int|
            0 <= x < width && 0 <= y < height ==> #[trigger] array_cells(a)[(x, y)]
                == Cell::Quantum(None),
{
    CellArray { inner: ndarray::Array2::default((width, height)) }
}

/// `ndarray`'s `dim`: the shape of the array as a pair.
#[verifier::external_body]
pub(crate) fn array_dim(a: &CellArray) -> (d: (usize, usize))
    ensures
        d == array_shape(*a),
{
    a.inner.dim()
}

/// `ndarray`'s `get` at the index `(x, y)`: the element there, or `None`
/// where the index lies outside the shape.
#[verifier::external_body]
pub(crate) fn array_get(a: &CellArray, x: usize, y: usize) -> (c: Option<Cell>)
    ensures
        x < array_shape(*a).0 && y < array_shape(*a).1 ==> c == Some(
            array_cells(*a)[(x as int, y as int)],
        ),
        !(x < array_shape(*a).0 && y < array_shape(*a).1) ==> c.is_none(),
{
    a.inner.get((x, y)).copied()
}

/// `ndarray`'s `IndexMut` at `(x, y)`, assigned `c`: that element becomes
/// `c`, every other element and the shape stay. Indexing panics outside the
/// shape, which `requires` leaves out.
#[verifier::external_body]
pub(crate) fn array_set(a: &mut CellArray, x: usize, y: usize, c: Cell)
    requires
        x < array_shape(*old(a)).0,
        y < array_shape(*old(a)).1,
    ensures
        array_shape(*final(a)) == array_shape(*old(a)),
        forall|i: int, j: int|
            0 <= i < array_shape(*old(a)).0 && 0 <= j < array_shape(*old(a)).1
                ==> #[trigger] array_cells(*final(a))[(i, j)] == (if i == x && j == y {
                c
            } else {
                array_cells(*old(a))[(i, j)]
            }),
{
    a.inner[(x, y)] = c;
}

/// `Clone` of `ndarray::Array2`: an array of the same shape with the same
/// elements.
#[verifier::external_body]
pub(crate) fn array_clone(a: &CellArray) -> (b: CellArray)
    ensures
        array_shape(b) == array_shape(*a),
        forall|x: int, y: int|
            0 <= x < array_shape(*a).0 && 0 <= y < array_shape(*a).1
                ==> #[trigger] array_cells(b)[(x, y)] == array_cells(*a)[(x, y)],
{
    CellArray { inner: a.inner.clone() }
}

} // verus!
