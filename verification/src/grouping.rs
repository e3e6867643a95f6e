//! Value types for the city model: cell addresses, named districts and the
//! buildings that make up a district cell's private sub-grid.
use vstd::prelude::*;
use vstd::string::StringExecFns;

verus! {

/// A cell address: a row index and a column index, in either the master grid
/// or a sub-grid.
#[derive(Clone, Copy, Debug, PartialEq, Eq, Structural, PartialOrd, Ord, Hash)]
pub struct Coord {
    /// The row index.
    pub row: usize,
    /// The column index.
    pub col: usize,
}

/// The text form of a cell address: its two indices, labelled.
pub open spec fn spec_coord_string(c: Coord) -> Seq<char> {
    "row: "@ + crate::text::dec_digits(c.row as nat) + ", col: "@ + crate::text::dec_digits(
        c.col as nat,
    )
}

impl Coord {
    /// Builds a coord from its row and column indices.
    pub fn new(row: usize, col: usize) -> (c: Coord)
        ensures
            c.row == row,
            c.col == col,
    {
        Coord { row, col }
    }

    /// Renders the coord as a string with the labelled row and column index.
    pub fn to_string(&self) -> (s: String)
        ensures
            s@ == spec_coord_string(*self),
    {
        let mut s = String::new();
        s.append("row: ");
        crate::text::push_decimal(&mut s, self.row);
        s.append(", col: ");
        crate::text::push_decimal(&mut s, self.col);
        proof {
            assert(s@ =~= spec_coord_string(*self));
        }
        s
    }
}

/// True when `c` lies inside a grid of `rows` by `cols` cells.
pub open spec fn in_bounds(c: Coord, rows: nat, cols: nat) -> bool {
    c.row < rows && c.col < cols
}

/// True when `a` and `b` are distinct cells that touch along an edge
/// (4-neighborhood).
pub open spec fn orth_adjacent(a: Coord, b: Coord) -> bool {
    ||| a.row == b.row && (a.col + 1 == b.col || b.col + 1 == a.col)
    ||| a.col == b.col && (a.row + 1 == b.row || b.row + 1 == a.row)
}

/// True when `a` and `b` are distinct cells that touch only at a corner
/// (the four diagonal neighbors).
pub open spec fn diag_adjacent(a: Coord, b: Coord) -> bool {
    &&& a.row + 1 == b.row || b.row + 1 == a.row
    &&& a.col + 1 == b.col || b.col + 1 == a.col
}

/// Neighborhood relation selected by `allow_diagonal`: always the four edge
/// neighbors, and the four corner neighbors as well when it is set.
pub open spec fn adjacent_mode(a: Coord, b: Coord, allow_diagonal: bool) -> bool {
    orth_adjacent(a, b) || (allow_diagonal && diag_adjacent(a, b))
}

/// A named district together with the growth history of the cells it has
/// claimed and its display color.
#[derive(Debug)]
pub struct Grouping {
    /// The name of this grouping.
    pub name: String,
    /// The cells this group has claimed, in growth order; the first entry is
    /// the seed cell.
    pub locations: Vec<Coord>,
    /// The color to display for the group, as red, green and blue channels.
    pub rgb_color: (u8, u8, u8),
}

/// One labelled line per claimed cell, in growth order.
pub open spec fn spec_location_lines(locs: Seq<Coord>) -> Seq<char>
    decreases locs.len(),
{
    if locs.len() == 0 {
        Seq::empty()
    } else {
        spec_location_lines(locs.drop_last()) + spec_coord_string(locs.last()) + "\n"@
    }
}

/// The text form of a grouping: a headline with its name, then its claimed
/// cells line by line.
pub open spec fn spec_grouping_string(g: Grouping) -> Seq<char> {
    "Group Printout:\nName: "@ + g.name@ + "\n"@ + spec_location_lines(g.locations@)
}

impl Grouping {
    /// Creates a new grouping with the given name, no claimed cells and a
    /// black display color.
    pub fn new(name: String) -> (g: Grouping)
        ensures
            g.name == name,
            g.locations@ =~= Seq::<Coord>::empty(),
            g.rgb_color == (0u8, 0u8, 0u8),
    {
        Grouping { name, locations: Vec::new(), rgb_color: (0, 0, 0) }
    }

    /// Creates a new grouping with the placeholder name.
    pub fn default() -> (g: Grouping)
        ensures
            g.name@ == "empty"@,
            g.locations@ =~= Seq::<Coord>::empty(),
            g.rgb_color == (0u8, 0u8, 0u8),
    {
        Grouping { name: String::from_str("empty"), locations: Vec::new(), rgb_color: (0, 0, 0) }
    }

    /// Renders the grouping as a string: a headline with its name, then one
    /// labelled line per claimed cell.
    pub fn to_string(&self) -> (s: String)
        ensures
            s@ == spec_grouping_string(*self),
    {
        let mut s = String::new();
        s.append("Group Printout:\nName: ");
        s.append(self.name.as_str());
        s.append("\n");
        let mut i: usize = 0;
        while i < self.locations.len()
            invariant
                i <= self.locations@.len(),
                s@ == "Group Printout:\nName: "@ + self.name@ + "\n"@ + spec_location_lines(
                    self.locations@.take(i as int),
                ),
            decreases self.locations@.len() - i,
        {
            let line = self.locations[i].to_string();
            s.append(line.as_str());
            s.append("\n");
            proof {
                assert(self.locations@.take(i + 1).drop_last() =~= self.locations@.take(i as int));
                assert(self.locations@.take(i + 1).last() == self.locations@[i as int]);
                assert(s@ =~= "Group Printout:\nName: "@ + self.name@ + "\n"@
                    + spec_location_lines(self.locations@.take(i + 1)));
            }
            i = i + 1;
        }
        proof {
            assert(self.locations@.take(self.locations@.len() as int) =~= self.locations@);
        }
        s
    }

    /// Sets the display color and hands back a copy of the updated grouping,
    /// so a grouping can be built and colored in one expression.
    pub fn with_color(&mut self, color: (u8, u8, u8)) -> (g: Grouping)
        ensures
            final(self).name == old(self).name,
            final(self).locations@ == old(self).locations@,
            final(self).rgb_color == color,
            g.name@ == old(self).name@,
            g.locations@ == old(self).locations@,
            g.rgb_color == color,
    {
        self.rgb_color = color;
        self.duplicate()
    }

    /// Lists the cells a grouping could grow into: every neighbor of a
    /// claimed cell that lies inside the grid, is not itself claimed by this
    /// grouping, and has not been listed already. Diagonal neighbors are
    /// considered only when `allow_diagonal` is set. Pure: no randomness and
    /// no mutation.
    pub fn get_adjacent_coords(&self, max_row: usize, max_col: usize, allow_diagonal: bool) -> (adj:
        Vec<Coord>)
        requires
            forall|k: int|
                0 <= k < self.locations@.len()
                    ==> (#[trigger] self.locations@[k]).row <= max_row
                        && self.locations@[k].col <= max_col,
        ensures
            adj@.no_duplicates(),
            forall|x: Coord| #[trigger]
                adj@.contains(x)
                    ==> x.row <= max_row && x.col <= max_col && !self.locations@.contains(x)
                        && exists|l: int|
                            0 <= l < self.locations@.len() && adjacent_mode(
                                #[trigger] self.locations@[l],
                                x,
                                allow_diagonal,
                            ),
            forall|l: int, x: Coord|
                0 <= l < self.locations@.len() && #[trigger] adjacent_mode(
                    self.locations@[l],
                    x,
                    allow_diagonal,
                ) && x.row <= max_row && x.col <= max_col && !self.locations@.contains(x)
                    ==> adj@.contains(x),
    {
        let locations = &self.locations;
        let mut adj: Vec<Coord> = Vec::new();
        let mut i: usize = 0;
        while i < locations.len()
            invariant
                i <= locations@.len(),
                forall|k: int|
                    0 <= k < locations@.len()
                        ==> (#[trigger] locations@[k]).row <= max_row
                            && locations@[k].col <= max_col,
                adj@.no_duplicates(),
                forall|x: Coord| #[trigger]
                    adj@.contains(x)
                        ==> x.row <= max_row && x.col <= max_col && !locations@.contains(x)
                            && exists|l: int|
                                0 <= l < locations@.len() && adjacent_mode(
                                    #[trigger] locations@[l],
                                    x,
                                    allow_diagonal,
                                ),
                forall|l: int, x: Coord|
                    0 <= l < i && #[trigger] adjacent_mode(locations@[l], x, allow_diagonal)
                        && x.row <= max_row && x.col <= max_col && !locations@.contains(x)
                        ==> adj@.contains(x),
            decreases locations@.len() - i,
        {
            let location = locations[i];
            let row = location.row;
            let col = location.col;
            // top left
            if row > 0 && col > 0 && allow_diagonal {
                push_candidate(&mut adj, locations, Coord::new(row - 1, col - 1));
            }
            // top
            if row > 0 {
                push_candidate(&mut adj, locations, Coord::new(row - 1, col));
            }
            // top right
            if row > 0 && col < max_col && allow_diagonal {
                push_candidate(&mut adj, locations, Coord::new(row - 1, col + 1));
            }
            // mid left
            if col > 0 {
                push_candidate(&mut adj, locations, Coord::new(row, col - 1));
            }
            // mid right
            if col < max_col {
                push_candidate(&mut adj, locations, Coord::new(row, col + 1));
            }
            // bottom left
            if row < max_row && col > 0 && allow_diagonal {
                push_candidate(&mut adj, locations, Coord::new(row + 1, col - 1));
            }
            // bottom
            if row < max_row {
                push_candidate(&mut adj, locations, Coord::new(row + 1, col));
            }
            // bottom right
            if row < max_row && col < max_col && allow_diagonal {
                push_candidate(&mut adj, locations, Coord::new(row + 1, col + 1));
            }
            proof {
                assert forall|x: Coord|
                    adjacent_mode(locations@[i as int], x, allow_diagonal) && x.row <= max_row
                        && x.col <= max_col && !locations@.contains(x) implies adj@.contains(
                    x,
                ) by {
                    let loc = locations@[i as int];
                    assert(x.row <= max_row && x.col <= max_col);
                    if orth_adjacent(loc, x) {
                        if x.row + 1 == loc.row {
                            assert(x == Coord { row: (row - 1) as usize, col });
                        } else if loc.row + 1 == x.row {
                            assert(x == Coord { row: (row + 1) as usize, col });
                        } else if x.col + 1 == loc.col {
                            assert(x == Coord { row, col: (col - 1) as usize });
                        } else {
                            assert(x == Coord { row, col: (col + 1) as usize });
                        }
                    } else {
                        if x.row + 1 == loc.row && x.col + 1 == loc.col {
                            assert(x == Coord { row: (row - 1) as usize, col: (col - 1) as usize });
                        } else if x.row + 1 == loc.row && loc.col + 1 == x.col {
                            assert(x == Coord { row: (row - 1) as usize, col: (col + 1) as usize });
                        } else if loc.row + 1 == x.row && x.col + 1 == loc.col {
                            assert(x == Coord { row: (row + 1) as usize, col: (col - 1) as usize });
                        } else {
                            assert(x == Coord { row: (row + 1) as usize, col: (col + 1) as usize });
                        }
                    }
                }
            }
            i = i + 1;
        }
        adj
    }

    /// Hands out a value copy of this grouping; claim records store such
    /// copies rather than live references.
    pub fn duplicate(&self) -> (g: Grouping)
        ensures
            g.name == self.name,
            g.locations@ == self.locations@,
            g.rgb_color == self.rgb_color,
    {
        Grouping {
            name: self.name.clone(),
            locations: copy_coords(&self.locations),
            rgb_color: self.rgb_color,
        }
    }
}

/// Linear membership test on a list of cell addresses.
fn contains_coord(v: &Vec<Coord>, c: Coord) -> (b: bool)
    ensures
        b == v@.contains(c),
{
    let mut i: usize = 0;
    while i < v.len()
        invariant
            i <= v@.len(),
            forall|k: int| 0 <= k < i ==> v@[k] != c,
        decreases v@.len() - i,
    {
        if v[i] == c {
            return true;
        }
        i = i + 1;
    }
    false
}

/// Appends `cand` to `adj` unless it already belongs to the grouping's own
/// cells or has been listed before: the dedup step of the adjacency scan.
fn push_candidate(adj: &mut Vec<Coord>, locations: &Vec<Coord>, cand: Coord)
    ensures
        old(adj)@.no_duplicates() ==> final(adj)@.no_duplicates(),
        forall|x: Coord| #[trigger]
            final(adj)@.contains(x) <==> (old(adj)@.contains(x) || (x == cand
                && !locations@.contains(cand))),
{
    if !contains_coord(locations, cand) && !contains_coord(adj, cand) {
        let ghost before = adj@;
        adj.push(cand);
        proof {
            broadcast use vstd::seq_lib::lemma_seq_contains_after_push;

            assert(adj@ == before.push(cand));
            if before.no_duplicates() {
                assert forall|p: int, q: int|
                    0 <= p < adj@.len() && 0 <= q < adj@.len() && p != q implies adj@[p]
                    != adj@[q] by {
                    if p < before.len() && q < before.len() {
                    } else if q == before.len() {
                        assert(adj@[q] == cand);
                        assert(!before.contains(cand));
                    } else {
                        assert(adj@[p] == cand);
                        assert(!before.contains(cand));
                    }
                }
            }
        }
    }
}

/// An element-wise copy of a list of cell addresses.
fn copy_coords(v: &Vec<Coord>) -> (r: Vec<Coord>)
    ensures
        r@ == v@,
{
    let mut r: Vec<Coord> = Vec::new();
    let mut i: usize = 0;
    while i < v.len()
        invariant
            i <= v@.len(),
            r@ == v@.take(i as int),
        decreases v@.len() - i,
    {
        r.push(v[i]);
        assert(r@ =~= v@.take(i + 1));
        i = i + 1;
    }
    assert(r@ =~= v@);
    r
}

/// One master-grid cell's claim record: a value copy of the owning group
/// taken at claim time (or nothing while the cell is unclaimed), the cell's
/// own address, and the cell's private sub-grid of buildings.
pub struct GroupInstance {
    /// The owning group, copied when the cell was claimed.
    pub group: Option<Grouping>,
    /// The address this record was claimed at.
    pub coord: Option<Coord>,
    /// The private sub-grid the neighborhood synthesizer fills.
    pub sub_grid: grid::Grid<Building>,
}

impl Default for GroupInstance {
    /// An unclaimed cell: no owner, no address, and a placeholder one-cell
    /// sub-grid.
    fn default() -> (r: GroupInstance)
        ensures
            r.group is None,
            r.coord is None,
            crate::grids::sub_view(r.sub_grid).len() == 1,
            crate::grids::sub_width(r.sub_grid) == 1,
    {
        GroupInstance { group: None, coord: None, sub_grid: crate::grids::sub_new(1, 1) }
    }
}

impl GroupInstance {
    /// Replaces the sub-grid with a fresh rows-by-cols grid of default
    /// buildings.
    pub fn initialize_sub_grid(&mut self, rows: usize, cols: usize)
        requires
            1 <= rows,
            1 <= cols,
            rows * cols <= usize::MAX,
        ensures
            final(self).group == old(self).group,
            final(self).coord == old(self).coord,
            crate::grids::sub_view(final(self).sub_grid).len() == rows,
            crate::grids::sub_width(final(self).sub_grid) == cols,
            crate::grids::rect(crate::grids::sub_view(final(self).sub_grid), cols as nat),
            forall|i: int, j: int|
                0 <= i < rows && 0 <= j < cols
                    ==> (#[trigger] crate::grids::sub_view(final(self).sub_grid)[i][j])
                        == default_building(),
    {
        self.sub_grid = crate::grids::sub_new(rows, cols);
    }

    /// Builds the claim record for one cell: the owner copy, the cell's own
    /// address and a fresh rows-by-cols sub-grid of default buildings.
    pub fn new(group: Grouping, coord: Coord, rows: usize, cols: usize) -> (r: GroupInstance)
        requires
            1 <= rows,
            1 <= cols,
            rows * cols <= usize::MAX,
        ensures
            r.group == Some(group),
            r.coord == Some(coord),
            crate::grids::sub_view(r.sub_grid).len() == rows,
            crate::grids::sub_width(r.sub_grid) == cols,
            crate::grids::rect(crate::grids::sub_view(r.sub_grid), cols as nat),
            forall|i: int, j: int|
                0 <= i < rows && 0 <= j < cols
                    ==> (#[trigger] crate::grids::sub_view(r.sub_grid)[i][j]) == default_building(),
    {
        GroupInstance { group: Some(group), coord: Some(coord), sub_grid: crate::grids::sub_new(rows, cols) }
    }
}

/// What a sub-grid cell may hold once the neighborhood synthesizer has run.
#[derive(Clone, Copy, Debug, PartialEq, Eq, Structural, PartialOrd, Ord, Hash)]
pub enum BuildingType {
    /// The building type has not been determined yet.
    Empty,
    /// A road cell; roads run along whole rows or columns.
    Road,
    /// A house where people live.
    Residence,
    /// A place where people go to buy things.
    Shop,
}

impl Default for BuildingType {
    /// A fresh sub-grid cell starts out unclassified.
    fn default() -> (t: BuildingType)
        ensures
            t == BuildingType::Empty,
    {
        BuildingType::Empty
    }
}

/// One cell of a district's private sub-grid: a building type and its
/// display color.
#[derive(Clone, Copy, Debug, PartialEq, Eq, PartialOrd, Ord, Hash)]
pub struct Building {
    pub build_type: BuildingType,
    pub rgb_color: (u8, u8, u8),
}

/// The state every sub-grid cell starts in: unclassified and black.
pub open spec fn default_building() -> Building {
    Building { build_type: BuildingType::Empty, rgb_color: (0u8, 0u8, 0u8) }
}

impl Default for Building {
    /// A fresh sub-grid cell: unclassified, colored black.
    fn default() -> (b: Building)
        ensures
            b == default_building(),
    {
        Building { build_type: BuildingType::Empty, rgb_color: (0, 0, 0) }
    }
}

} // verus!

