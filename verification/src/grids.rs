//! The two-dimensional cell stores, kept in `grid::Grid` and modeled for the
//! verifier as a sequence of rows, together with the column count the grid
//! was built with.
use vstd::prelude::*;
use crate::grouping::Building;
use crate::grouping::GroupInstance;
use crate::grouping::default_building;

verus! {

#[verifier::external_type_specification]
#[verifier::external_body]
#[verifier::reject_recursive_types(T)]
pub struct ExGrid<T>(grid::Grid<T>);

/// True when every row of `v` has exactly `cols` entries.
pub open spec fn rect<T>(v: Seq<Seq<T>>, cols: nat) -> bool {
    forall|i: int| 0 <= i < v.len() ==> (#[trigger] v[i]).len() == cols
}

/// What a master grid holds: its cell claim records, row by row.
pub uninterp spec fn master_view(g: grid::Grid<GroupInstance>) -> Seq<Seq<GroupInstance>>;

/// The column count a master grid was built with.
pub uninterp spec fn master_width(g: grid::Grid<GroupInstance>) -> nat;

/// What a sub-grid holds: its buildings, row by row.
pub uninterp spec fn sub_view(g: grid::Grid<Building>) -> Seq<Seq<Building>>;

/// The column count a sub-grid was built with.
pub uninterp spec fn sub_width(g: grid::Grid<Building>) -> nat;

/// Relies on grid::Grid::new: a rows-by-cols grid filled with the element
/// type's default; GroupInstance's verified Default impl leaves `group` and
/// `coord` unset. With both dimensions positive and their product in range,
/// the internal multiplication does not panic and neither dimension is
/// clamped to zero.
#[verifier::external_body]
pub(crate) fn master_new(rows: usize, cols: usize) -> (g: grid::Grid<GroupInstance>)
    requires
        1 <= rows,
        1 <= cols,
        rows * cols <= usize::MAX,
    ensures
        master_view(g).len() == rows,
        master_width(g) == cols,
        rect(master_view(g), cols as nat),
        forall|i: int, j: int|
            0 <= i < rows && 0 <= j < cols
                ==> (#[trigger] master_view(g)[i][j]).group is None
                    && master_view(g)[i][j].coord is None,
{
    grid::Grid::new(rows, cols)
}

/// Relies on grid::Grid::rows.
#[verifier::external_body]
pub(crate) fn master_rows(g: &grid::Grid<GroupInstance>) -> (r: usize)
    ensures
        r == master_view(*g).len(),
{
    g.rows()
}

/// Relies on grid::Grid::cols.
#[verifier::external_body]
pub(crate) fn master_cols(g: &grid::Grid<GroupInstance>) -> (c: usize)
    ensures
        c == master_width(*g),
{
    g.cols()
}

/// Relies on grid::Grid::get: in bounds, it returns the stored element.
#[verifier::external_body]
pub(crate) fn master_get<'a>(g: &'a grid::Grid<GroupInstance>, row: usize, col: usize) -> (r:
    &'a GroupInstance)
    requires
        row < master_view(*g).len(),
        col < master_width(*g),
    ensures
        *r == master_view(*g)[row as int][col as int],
{
    g.get(row, col).unwrap()
}

/// Relies on grid::Grid::get_mut: in bounds, it hands out a mutable
/// borrow of the stored element; whatever the borrow holds when it ends is
/// what the grid then stores at that address.
#[verifier::external_body]
pub(crate) fn master_get_mut<'a>(
    g: &'a mut grid::Grid<GroupInstance>,
    row: usize,
    col: usize,
) -> (r: &'a mut GroupInstance)
    requires
        row < master_view(*old(g)).len(),
        col < master_width(*old(g)),
    ensures
        *r == master_view(*old(g))[row as int][col as int],
        master_view(*final(g)) == master_view(*old(g)).update(
            row as int,
            master_view(*old(g))[row as int].update(col as int, *final(r)),
        ),
        master_width(*final(g)) == master_width(*old(g)),
{
    g.get_mut(row, col).unwrap()
}

/// Relies on grid::Grid::get_mut: in bounds, it hands out the stored
/// element, which is replaced wholesale.
#[verifier::external_body]
pub(crate) fn master_set(g: &mut grid::Grid<GroupInstance>, row: usize, col: usize, v: GroupInstance)
    requires
        row < master_view(*old(g)).len(),
        col < master_width(*old(g)),
    ensures
        master_view(*final(g)) == master_view(*old(g)).update(
            row as int,
            master_view(*old(g))[row as int].update(col as int, v),
        ),
        master_width(*final(g)) == master_width(*old(g)),
{
    *g.get_mut(row, col).unwrap() = v;
}

/// Relies on grid::Grid::new: a rows-by-cols grid filled with the element
/// type's default; Building's verified Default impl is the unclassified
/// black building. With both dimensions positive and their product in
/// range, the internal multiplication does not panic and neither dimension
/// is clamped to zero.
#[verifier::external_body]
pub(crate) fn sub_new(rows: usize, cols: usize) -> (g: grid::Grid<Building>)
    requires
        1 <= rows,
        1 <= cols,
        rows * cols <= usize::MAX,
    ensures
        sub_view(g).len() == rows,
        sub_width(g) == cols,
        rect(sub_view(g), cols as nat),
        forall|i: int, j: int|
            0 <= i < rows && 0 <= j < cols ==> (#[trigger] sub_view(g)[i][j]) == default_building(),
{
    grid::Grid::new(rows, cols)
}

/// Relies on grid::Grid::rows.
#[verifier::external_body]
pub(crate) fn sub_rows(g: &grid::Grid<Building>) -> (r: usize)
    ensures
        r == sub_view(*g).len(),
{
    g.rows()
}

/// Relies on grid::Grid::cols.
#[verifier::external_body]
pub(crate) fn sub_cols(g: &grid::Grid<Building>) -> (c: usize)
    ensures
        c == sub_width(*g),
{
    g.cols()
}

/// Relies on grid::Grid::get: in bounds, it returns the stored element.
#[verifier::external_body]
pub(crate) fn sub_get(g: &grid::Grid<Building>, row: usize, col: usize) -> (b: Building)
    requires
        row < sub_view(*g).len(),
        col < sub_width(*g),
    ensures
        b == sub_view(*g)[row as int][col as int],
{
    *g.get(row, col).unwrap()
}

/// Relies on grid::Grid::get_mut: in bounds, it hands out the stored
/// element, which is replaced wholesale.
#[verifier::external_body]
pub(crate) fn sub_set(g: &mut grid::Grid<Building>, row: usize, col: usize, b: Building)
    requires
        row < sub_view(*old(g)).len(),
        col < sub_width(*old(g)),
    ensures
        sub_view(*final(g)) == sub_view(*old(g)).update(
            row as int,
            sub_view(*old(g))[row as int].update(col as int, b),
        ),
        sub_width(*final(g)) == sub_width(*old(g)),
{
    *g.get_mut(row, col).unwrap() = b;
}

} // verus!
