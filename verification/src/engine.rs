//! The expansion engine: seeding ("priming") of the master grid and
//! round-based, distance-biased growth until every district is enclosed.
use vstd::prelude::*;
use vstd::math::abs;
use vstd::set_lib::lemma_len_subset;
use vstd::set_lib::lemma_set_disjoint_lens;
use crate::grouping::Coord;
use crate::grouping::Grouping;
use crate::grouping::GroupInstance;
use crate::grouping::in_bounds;
use crate::grouping::orth_adjacent;
use crate::grouping::adjacent_mode;
use crate::grids::master_view;
use crate::grids::master_width;
use crate::grids::master_new;
use crate::grids::master_rows;
use crate::grids::master_cols;
use crate::grids::master_get;
use crate::grids::master_set;
use crate::grids::rect;
use crate::rng::rand_below;

verus! {

/// The cell of `v` addressed by `c` has been claimed by some district.
pub open spec fn claimed_at(v: Seq<Seq<GroupInstance>>, c: Coord) -> bool {
    v[c.row as int][c.col as int].group is Some
}

/// `c` is recorded in the claim history of some group of `gs`.
pub open spec fn located(gs: Seq<Grouping>, c: Coord) -> bool {
    exists|i: int, k: int|
        0 <= i < gs.len() && 0 <= k < gs[i].locations@.len() && gs[i].locations@[k] == c
}

/// No cell is recorded by two different groups.
pub open spec fn groups_disjoint(gs: Seq<Grouping>) -> bool {
    forall|i: int, j: int, k: int, l: int|
        #![trigger gs[i].locations@[k], gs[j].locations@[l]]
        0 <= i < gs.len() && 0 <= j < gs.len() && i != j && 0 <= k < gs[i].locations@.len() && 0
            <= l < gs[j].locations@.len() ==> gs[i].locations@[k] != gs[j].locations@[l]
}

/// Every recorded cell's claim record carries the cell's own address and a
/// value copy of the owning group taken at claim time: same name, same
/// display color.
pub open spec fn owners_recorded(gs: Seq<Grouping>, v: Seq<Seq<GroupInstance>>) -> bool {
    forall|i: int, k: int|
        0 <= i < gs.len() && 0 <= k < gs[i].locations@.len() ==> {
            let loc = #[trigger] gs[i].locations@[k];
            let rec = v[loc.row as int][loc.col as int];
            &&& rec.coord == Some(loc)
            &&& rec.group is Some
            &&& rec.group->0.name@ == gs[i].name@
            &&& rec.group->0.rgb_color == gs[i].rgb_color
        }
}

/// What the expansion engine maintains between the canonical group list and
/// the master grid: the grid is rectangular; no group records a cell twice;
/// no two groups record the same cell; every recorded cell lies in bounds,
/// is claimed in the grid, and stores a faithful owner copy; and every
/// claimed cell is recorded by some group.
pub open spec fn engine_inv(
    gs: Seq<Grouping>,
    v: Seq<Seq<GroupInstance>>,
    rows: nat,
    cols: nat,
) -> bool {
    &&& v.len() == rows
    &&& rect(v, cols)
    &&& forall|i: int| 0 <= i < gs.len() ==> (#[trigger] gs[i]).locations@.no_duplicates()
    &&& forall|i: int, k: int|
        0 <= i < gs.len() && 0 <= k < gs[i].locations@.len()
            ==> in_bounds(#[trigger] gs[i].locations@[k], rows, cols) && claimed_at(
                v,
                gs[i].locations@[k],
            )
    &&& groups_disjoint(gs)
    &&& owners_recorded(gs, v)
    &&& forall|c: Coord| in_bounds(c, rows, cols) && #[trigger] claimed_at(v, c) ==> located(gs, c)
}

/// Every cell 4-adjacent to one of the group's recorded cells is either
/// outside the grid or claimed (by this group or another): the group cannot
/// grow any further.
pub open spec fn region_enclosed(
    g: Grouping,
    v: Seq<Seq<GroupInstance>>,
    rows: nat,
    cols: nat,
) -> bool {
    forall|k: int, n: Coord|
        0 <= k < g.locations@.len() && #[trigger] orth_adjacent(g.locations@[k], n) && in_bounds(
            n,
            rows,
            cols,
        ) ==> claimed_at(v, n)
}

/// Every claimed cell's private sub-grid has exactly `ir` rows of `ic`
/// buildings each.
pub open spec fn claimed_cells_sized(
    v: Seq<Seq<GroupInstance>>,
    rows: nat,
    cols: nat,
    ir: int,
    ic: int,
) -> bool {
    forall|c: Coord|
        in_bounds(c, rows, cols) && #[trigger] claimed_at(v, c) ==> {
            let sg = v[c.row as int][c.col as int].sub_grid;
            &&& crate::grids::sub_view(sg).len() == ir
            &&& crate::grids::sub_width(sg) == ic
            &&& rect(crate::grids::sub_view(sg), crate::grids::sub_width(sg))
        }
}

/// The combined length of all claim histories.
pub open spec fn total_locations(gs: Seq<Grouping>) -> int
    decreases gs.len(),
{
    if gs.len() == 0 {
        0
    } else {
        total_locations(gs.drop_last()) + gs.last().locations@.len()
    }
}

/// The set of all cells recorded by some group.
pub open spec fn locations_set(gs: Seq<Grouping>) -> Set<Coord>
    decreases gs.len(),
{
    if gs.len() == 0 {
        Set::empty()
    } else {
        locations_set(gs.drop_last()) + gs.last().locations@.to_set()
    }
}

/// Membership in `locations_set` is exactly `located`.
proof fn lemma_located_iff_in_set(gs: Seq<Grouping>, c: Coord)
    ensures
        locations_set(gs).contains(c) <==> located(gs, c),
    decreases gs.len(),
{
    if gs.len() > 0 {
        lemma_located_iff_in_set(gs.drop_last(), c);
        if located(gs, c) {
            let (i, k) = choose|i: int, k: int|
                0 <= i < gs.len() && 0 <= k < gs[i].locations@.len() && gs[i].locations@[k] == c;
            if i < gs.len() - 1 {
                assert(gs.drop_last()[i].locations@[k] == c);
                assert(located(gs.drop_last(), c));
            } else {
                assert(gs.last().locations@.contains(c));
            }
        }
        if locations_set(gs).contains(c) {
            if locations_set(gs.drop_last()).contains(c) {
                let (i, k) = choose|i: int, k: int|
                    0 <= i < gs.drop_last().len() && 0 <= k < gs.drop_last()[i].locations@.len()
                        && gs.drop_last()[i].locations@[k] == c;
                assert(gs[i].locations@[k] == c);
                assert(located(gs, c));
            } else {
                assert(gs.last().locations@.to_set().contains(c));
                let k = choose|k: int|
                    0 <= k < gs.last().locations@.len() && gs.last().locations@[k] == c;
                assert(gs[gs.len() - 1].locations@[k] == c);
                assert(located(gs, c));
            }
        }
    }
}

/// With duplicate-free, pairwise-disjoint claim histories, the recorded
/// cells form a finite set whose size is the combined history length.
proof fn lemma_locations_set_card(gs: Seq<Grouping>)
    requires
        forall|i: int| 0 <= i < gs.len() ==> (#[trigger] gs[i]).locations@.no_duplicates(),
        groups_disjoint(gs),
    ensures
        locations_set(gs).finite(),
        locations_set(gs).len() == total_locations(gs),
    decreases gs.len(),
{
    broadcast use vstd::seq_lib::group_seq_properties;

    if gs.len() == 0 {
    } else {
        let prefix = gs.drop_last();
        assert(forall|i: int|
            0 <= i < prefix.len() ==> (#[trigger] prefix[i]).locations@.no_duplicates());
        assert forall|i: int, j: int, k: int, l: int|
            #![trigger prefix[i].locations@[k], prefix[j].locations@[l]]
            0 <= i < prefix.len() && 0 <= j < prefix.len() && i != j && 0 <= k
                < prefix[i].locations@.len() && 0 <= l
                < prefix[j].locations@.len() implies prefix[i].locations@[k]
            != prefix[j].locations@[l] by {
            assert(gs[i].locations@[k] != gs[j].locations@[l]);
        }
        lemma_locations_set_card(prefix);
        let last = gs.last().locations@;
        last.unique_seq_to_set();
        assert(locations_set(prefix).disjoint(last.to_set())) by {
            assert forall|c: Coord|
                locations_set(prefix).contains(c) implies !last.to_set().contains(c) by {
                lemma_located_iff_in_set(prefix, c);
                let (i, k) = choose|i: int, k: int|
                    0 <= i < prefix.len() && 0 <= k < prefix[i].locations@.len()
                        && prefix[i].locations@[k] == c;
                if last.to_set().contains(c) {
                    let l = choose|l: int| 0 <= l < last.len() && last[l] == c;
                    assert(gs[i].locations@[k] == gs[gs.len() - 1].locations@[l]);
                    assert(false);
                }
            }
        }
        lemma_set_disjoint_lens(locations_set(prefix), last.to_set());
    }
}

/// One grid row's worth of cell addresses.
spec fn strip_set(r: usize, cols: usize) -> Set<Coord>
    decreases cols,
{
    if cols == 0 {
        Set::empty()
    } else {
        strip_set(r, (cols - 1) as usize).insert(Coord { row: r, col: (cols - 1) as usize })
    }
}

proof fn lemma_strip_set(r: usize, cols: usize)
    ensures
        strip_set(r, cols).finite(),
        strip_set(r, cols).len() == cols,
        forall|c: Coord| #[trigger]
            strip_set(r, cols).contains(c) <==> c.row == r && c.col < cols,
    decreases cols,
{
    if cols > 0 {
        lemma_strip_set(r, (cols - 1) as usize);
        assert(!strip_set(r, (cols - 1) as usize).contains(
            Coord { row: r, col: (cols - 1) as usize },
        ));
    }
}

/// All cell addresses of a rows-by-cols grid.
spec fn block_set(rows: usize, cols: usize) -> Set<Coord>
    decreases rows,
{
    if rows == 0 {
        Set::empty()
    } else {
        block_set((rows - 1) as usize, cols) + strip_set((rows - 1) as usize, cols)
    }
}

proof fn lemma_block_set(rows: usize, cols: usize)
    ensures
        block_set(rows, cols).finite(),
        block_set(rows, cols).len() == rows * cols,
        forall|c: Coord| #[trigger]
            block_set(rows, cols).contains(c) <==> in_bounds(c, rows as nat, cols as nat),
    decreases rows,
{
    if rows > 0 {
        let smaller = (rows - 1) as usize;
        lemma_block_set(smaller, cols);
        lemma_strip_set(smaller, cols);
        assert(block_set(smaller, cols).disjoint(strip_set(smaller, cols)));
        lemma_set_disjoint_lens(block_set(smaller, cols), strip_set(smaller, cols));
        assert(smaller * cols + cols == rows * cols) by (nonlinear_arith)
            requires
                smaller == rows - 1,
        {}
    }
}

/// Under the engine invariant the combined history length can never exceed
/// the cell count of the grid.
proof fn lemma_total_locations_bounded(
    gs: Seq<Grouping>,
    v: Seq<Seq<GroupInstance>>,
    rows: usize,
    cols: usize,
)
    requires
        engine_inv(gs, v, rows as nat, cols as nat),
    ensures
        total_locations(gs) <= rows * cols,
{
    lemma_locations_set_card(gs);
    lemma_block_set(rows, cols);
    assert forall|c: Coord| locations_set(gs).contains(c) implies block_set(
        rows,
        cols,
    ).contains(c) by {
        lemma_located_iff_in_set(gs, c);
        let (i, k) = choose|i: int, k: int|
            0 <= i < gs.len() && 0 <= k < gs[i].locations@.len() && gs[i].locations@[k] == c;
        assert(in_bounds(gs[i].locations@[k], rows as nat, cols as nat));
    }
    lemma_len_subset(locations_set(gs), block_set(rows, cols));
}

/// A duplicate-free list of in-bounds cell addresses is no longer than the
/// grid has cells.
proof fn lemma_coord_list_len(s: Seq<Coord>, rows: usize, cols: usize)
    requires
        s.no_duplicates(),
        forall|k: int| 0 <= k < s.len() ==> in_bounds(#[trigger] s[k], rows as nat, cols as nat),
    ensures
        s.len() <= rows * cols,
{
    s.unique_seq_to_set();
    lemma_block_set(rows, cols);
    assert forall|c: Coord| s.to_set().contains(c) implies block_set(rows, cols).contains(c) by {
        let k = choose|k: int| 0 <= k < s.len() && s[k] == c;
        assert(in_bounds(s[k], rows as nat, cols as nat));
    }
    lemma_len_subset(s.to_set(), block_set(rows, cols));
}

/// Replacing one group by a version whose history is one entry longer
/// raises the combined history length by one.
proof fn lemma_total_locations_update(gs: Seq<Grouping>, i: int, g: Grouping)
    requires
        0 <= i < gs.len(),
    ensures
        total_locations(gs.update(i, g)) == total_locations(gs) + g.locations@.len()
            - gs[i].locations@.len(),
    decreases gs.len(),
{
    let updated = gs.update(i, g);
    if i == gs.len() - 1 {
        assert(updated.drop_last() =~= gs.drop_last());
    } else {
        lemma_total_locations_update(gs.drop_last(), i, g);
        assert(updated.drop_last() =~= gs.drop_last().update(i, g));
        assert(updated.last() == gs.last());
    }
}

/// On a grid that holds at least one claimed and one unclaimed cell, some
/// claimed cell has an unclaimed 4-neighbor inside the grid.
proof fn lemma_claimed_boundary(
    v: Seq<Seq<GroupInstance>>,
    rows: usize,
    cols: usize,
    s: Coord,
    u: Coord,
)
    requires
        in_bounds(s, rows as nat, cols as nat),
        in_bounds(u, rows as nat, cols as nat),
        claimed_at(v, s),
        !claimed_at(v, u),
    ensures
        exists|p: Coord, q: Coord|
            in_bounds(p, rows as nat, cols as nat) && in_bounds(q, rows as nat, cols as nat)
                && #[trigger] orth_adjacent(p, q) && claimed_at(v, p) && !claimed_at(v, q),
    decreases abs(s.row - u.row) + abs(s.col - u.col),
{
    if orth_adjacent(s, u) {
        assert(in_bounds(s, rows as nat, cols as nat) && in_bounds(u, rows as nat, cols as nat)
            && orth_adjacent(s, u) && claimed_at(v, s) && !claimed_at(v, u));
    } else {
        let m = if s.row < u.row {
            Coord { row: (s.row + 1) as usize, col: s.col }
        } else if s.row > u.row {
            Coord { row: (s.row - 1) as usize, col: s.col }
        } else if s.col < u.col {
            Coord { row: s.row, col: (s.col + 1) as usize }
        } else {
            Coord { row: s.row, col: (s.col - 1) as usize }
        };
        assert(orth_adjacent(s, m));
        assert(in_bounds(m, rows as nat, cols as nat));
        if claimed_at(v, m) {
            lemma_claimed_boundary(v, rows, cols, m, u);
        } else {
            assert(in_bounds(s, rows as nat, cols as nat) && in_bounds(m, rows as nat, cols as nat)
                && orth_adjacent(s, m) && claimed_at(v, s) && !claimed_at(v, m));
        }
    }
}

/// Once every region is enclosed, every cell of the grid is claimed,
/// provided at least one cell is.
proof fn lemma_enclosed_covers(
    gs: Seq<Grouping>,
    v: Seq<Seq<GroupInstance>>,
    rows: usize,
    cols: usize,
)
    requires
        engine_inv(gs, v, rows as nat, cols as nat),
        gs.len() >= 1,
        gs[0].locations@.len() >= 1,
        forall|i: int|
            0 <= i < gs.len() ==> region_enclosed(#[trigger] gs[i], v, rows as nat, cols as nat),
    ensures
        forall|c: Coord| in_bounds(c, rows as nat, cols as nat) ==> claimed_at(v, c),
{
    let s = gs[0].locations@[0];
    assert(in_bounds(s, rows as nat, cols as nat) && claimed_at(v, s));
    assert forall|c: Coord| in_bounds(c, rows as nat, cols as nat) implies claimed_at(v, c) by {
        if !claimed_at(v, c) {
            lemma_claimed_boundary(v, rows, cols, s, c);
            let (p, q) = choose|p: Coord, q: Coord|
                in_bounds(p, rows as nat, cols as nat) && in_bounds(q, rows as nat, cols as nat)
                    && #[trigger] orth_adjacent(p, q) && claimed_at(v, p) && !claimed_at(v, q);
            assert(located(gs, p));
            let (i, k) = choose|i: int, k: int|
                0 <= i < gs.len() && 0 <= k < gs[i].locations@.len() && gs[i].locations@[k] == p;
            assert(region_enclosed(gs[i], v, rows as nat, cols as nat));
            assert(claimed_at(v, q));
        }
    }
}

/// Upper bound on either master-grid dimension; keeps every weight sum far
/// below the platform's integer range.
pub const MAX_GRID_DIM: usize = 1024;

/// The squared euclidean distance between two cell addresses.
pub open spec fn dist2(a: Coord, b: Coord) -> int {
    (a.row - b.row) * (a.row - b.row) + (a.col - b.col) * (a.col - b.col)
}

/// The least `k` with `k * k >= d`.
pub open spec fn spec_ceil_sqrt(d: nat) -> nat
    decreases d,
{
    if d == 0 {
        0
    } else if spec_ceil_sqrt((d - 1) as nat) * spec_ceil_sqrt((d - 1) as nat) >= d {
        spec_ceil_sqrt((d - 1) as nat)
    } else {
        spec_ceil_sqrt((d - 1) as nat) + 1
    }
}

/// `spec_ceil_sqrt` is characterized by its two-sided square bounds.
proof fn lemma_spec_ceil_sqrt(d: nat)
    ensures
        spec_ceil_sqrt(d) * spec_ceil_sqrt(d) >= d,
        d > 0 ==> 1 <= spec_ceil_sqrt(d) && (spec_ceil_sqrt(d) - 1) * (spec_ceil_sqrt(d) - 1) < d,
        d == 0 ==> spec_ceil_sqrt(d) == 0,
    decreases d,
{
    if d > 0 {
        let smaller = (d - 1) as nat;
        lemma_spec_ceil_sqrt(smaller);
        let r = spec_ceil_sqrt(smaller);
        if r * r >= d {
        } else {
            assert((r + 1) * (r + 1) >= d) by (nonlinear_arith)
                requires
                    r * r >= d - 1,
                    r * r < d,
            {}
        }
    }
}

/// The selection weight of candidate `b` for a region seeded at `a`: the
/// euclidean distance from the seed, rounded up to an integer and clamped
/// to a minimum of one.
pub open spec fn growth_weight(a: Coord, b: Coord) -> int {
    if dist2(a, b) == 0 {
        1
    } else {
        spec_ceil_sqrt(dist2(a, b) as nat) as int
    }
}

/// A value meeting the two-sided square bounds is the ceiling square root.
proof fn lemma_ceil_sqrt_unique(d: nat, k: nat)
    requires
        k * k >= d,
        d > 0 ==> 1 <= k && (k - 1) * (k - 1) < d,
        d == 0 ==> k == 0,
    ensures
        k == spec_ceil_sqrt(d),
{
    lemma_spec_ceil_sqrt(d);
    if d > 0 {
        let r = spec_ceil_sqrt(d);
        assert(k == r) by (nonlinear_arith)
            requires
                k * k >= d,
                (k - 1) * (k - 1) < d,
                r * r >= d,
                (r - 1) * (r - 1) < d,
                1 <= k,
                1 <= r,
        {}
    }
}

/// The least `k` with `k * k >= d`.
fn ceil_sqrt(d: u64) -> (k: u64)
    requires
        d <= 0x4_0000_0000,
    ensures
        k * k >= d,
        d > 0 ==> (k - 1) * (k - 1) < d && 1 <= k,
        d == 0 ==> k == 0,
{
    let mut k: u64 = 0;
    while k * k < d
        invariant
            d <= 0x4_0000_0000,
            k <= 0x2_0000,
            k * k <= 0x10_0000_0000,
            k == 0 || (k - 1) * (k - 1) < d,
        decreases d - k,
    {
        proof {
            assert(k < 0x2_0000) by (nonlinear_arith)
                requires
                    k * k < d,
                    d <= 0x4_0000_0000,
            {}
            assert(k < d) by (nonlinear_arith)
                requires
                    k * k < d,
            {}
            assert((k + 1) * (k + 1) <= 0x10_0000_0000) by (nonlinear_arith)
                requires
                    k + 1 <= 0x2_0000,
            {}
        }
        k = k + 1;
    }
    k
}

impl Grouping {
    /// The selection weight of `coord` relative to this grouping's seed cell
    /// (its first claimed location): the euclidean distance rounded up,
    /// never less than one.
    pub fn weight_from_center(&self, coord: &Coord) -> (w: usize)
        requires
            self.locations@.len() >= 1,
            self.locations@[0].row <= 0xFFFF,
            self.locations@[0].col <= 0xFFFF,
            coord.row <= 0xFFFF,
            coord.col <= 0xFFFF,
        ensures
            1 <= w,
            w <= 1 + abs(self.locations@[0].row - coord.row) + abs(
                self.locations@[0].col - coord.col,
            ),
            w == growth_weight(self.locations@[0], *coord),
    {
        let first = self.locations[0];
        let dr: u64 = if first.row >= coord.row {
            (first.row - coord.row) as u64
        } else {
            (coord.row - first.row) as u64
        };
        let dc: u64 = if first.col >= coord.col {
            (first.col - coord.col) as u64
        } else {
            (coord.col - first.col) as u64
        };
        proof {
            assert(dr * dr + dc * dc <= 0x4_0000_0000) by (nonlinear_arith)
                requires
                    dr <= 0xFFFF,
                    dc <= 0xFFFF,
            {}
        }
        let d: u64 = dr * dr + dc * dc;
        let k = ceil_sqrt(d);
        proof {
            assert(d == dist2(first, *coord)) by (nonlinear_arith)
                requires
                    dr == abs(first.row - coord.row),
                    dc == abs(first.col - coord.col),
                    d == dr * dr + dc * dc,
            {}
            if d > 0 {
                assert(d <= (dr + dc) * (dr + dc)) by (nonlinear_arith)
                    requires
                        d == dr * dr + dc * dc,
                {}
                assert(k <= dr + dc) by (nonlinear_arith)
                    requires
                        (k - 1) * (k - 1) < d,
                        d <= (dr + dc) * (dr + dc),
                        1 <= k,
                {}
            }
        }
        proof {
            lemma_ceil_sqrt_unique(d as nat, k as nat);
        }
        if k == 0 {
            1
        } else {
            k as usize
        }
    }
}

/// The combined selection mass of the first `k` candidates.
pub open spec fn weights_prefix(coords: Seq<Coord>, seed: Coord, k: int) -> int
    decreases k,
{
    if k <= 0 {
        0
    } else {
        weights_prefix(coords, seed, k - 1) + growth_weight(seed, coords[k - 1])
    }
}

/// The deterministic half of the weighted selector: given the uniform draw,
/// scans the candidates in order, subtracting each candidate's weight from
/// the draw until it falls below the current candidate's weight, and
/// returns that candidate — the one whose slot of selection mass holds the
/// draw. Hands back nothing only when the draw lies at or beyond the total
/// mass, which a draw below the total never does.
pub fn coord_from_draw(coords: &Vec<Coord>, grouping: &Grouping, draw: usize) -> (r: Option<Coord>)
    requires
        grouping.locations@.len() >= 1,
        grouping.locations@[0].row < MAX_GRID_DIM,
        grouping.locations@[0].col < MAX_GRID_DIM,
        forall|k: int|
            0 <= k < coords@.len()
                ==> (#[trigger] coords@[k]).row < MAX_GRID_DIM && coords@[k].col < MAX_GRID_DIM,
    ensures
        match r {
            Some(c) => exists|k: int|
                0 <= k < coords@.len() && #[trigger] weights_prefix(
                    coords@,
                    grouping.locations@[0],
                    k,
                ) <= draw < weights_prefix(coords@, grouping.locations@[0], k + 1) && c
                    == coords@[k],
            None => draw >= weights_prefix(
                coords@,
                grouping.locations@[0],
                coords@.len() as int,
            ),
        },
{
    let ghost seed = grouping.locations@[0];
    let mut rnd = draw;
    let mut j: usize = 0;
    while j < coords.len()
        invariant
            j <= coords@.len(),
            grouping.locations@.len() >= 1,
            grouping.locations@[0] == seed,
            seed.row < MAX_GRID_DIM,
            seed.col < MAX_GRID_DIM,
            forall|k: int|
                0 <= k < coords@.len()
                    ==> (#[trigger] coords@[k]).row < MAX_GRID_DIM && coords@[k].col
                        < MAX_GRID_DIM,
            rnd == draw - weights_prefix(coords@, seed, j as int),
            weights_prefix(coords@, seed, j as int) <= draw,
        decreases coords@.len() - j,
    {
        let cand = coords[j];
        let w = grouping.weight_from_center(&cand);
        if rnd < w {
            proof {
                assert(weights_prefix(coords@, seed, j + 1) == weights_prefix(
                    coords@,
                    seed,
                    j as int,
                ) + growth_weight(seed, cand));
            }
            return Some(cand);
        }
        rnd = rnd - w;
        j = j + 1;
    }
    None
}

/// With the first `m` groups holding one recorded cell each and the rest
/// none, the combined history length is exactly `m`.
proof fn lemma_total_seeded(gs: Seq<Grouping>, m: int)
    requires
        0 <= m <= gs.len(),
        forall|i: int| 0 <= i < m ==> (#[trigger] gs[i]).locations@.len() == 1,
        forall|i: int| m <= i < gs.len() ==> (#[trigger] gs[i]).locations@.len() == 0,
    ensures
        total_locations(gs) == m,
    decreases gs.len(),
{
    if gs.len() > 0 {
        let prefix = gs.drop_last();
        if m == gs.len() {
            lemma_total_seeded(prefix, m - 1);
        } else {
            lemma_total_seeded(prefix, m);
        }
    }
}

/// An unclaimed master grid of the requested dimensions.
pub fn create_empty_grid(rows: usize, cols: usize) -> (g: grid::Grid<GroupInstance>)
    requires
        1 <= rows <= MAX_GRID_DIM,
        1 <= cols <= MAX_GRID_DIM,
    ensures
        master_view(g).len() == rows,
        master_width(g) == cols,
        rect(master_view(g), cols as nat),
        forall|c: Coord|
            in_bounds(c, rows as nat, cols as nat) ==> !#[trigger] claimed_at(master_view(g), c),
        forall|c: Coord|
            #![trigger claimed_at(master_view(g), c)]
            in_bounds(c, rows as nat, cols as nat)
                ==> master_view(g)[c.row as int][c.col as int].coord is None,
{
    proof {
        assert(rows * cols <= MAX_GRID_DIM * MAX_GRID_DIM) by (nonlinear_arith)
            requires
                1 <= rows <= MAX_GRID_DIM,
                1 <= cols <= MAX_GRID_DIM,
        {}
    }
    let g = master_new(rows, cols);
    proof {
        assert forall|c: Coord|
            in_bounds(c, rows as nat, cols as nat) implies !claimed_at(master_view(g), c) by {
            assert(master_view(g)[c.row as int][c.col as int].group is None);
        }
    }
    g
}

/// True when the row-major scan has already passed cell `x`: the scan
/// stands at row `r`, column `c`, in a grid `cols` columns wide.
spec fn scanned(x: Coord, r: int, c: int, cols: int) -> bool {
    (x.row < r && x.col < cols) || (x.row == r && x.col < c)
}

/// Lists every unclaimed cell of the master grid, in row-major order.
fn collect_free(g: &grid::Grid<GroupInstance>) -> (free: Vec<Coord>)
    requires
        rect(master_view(*g), master_width(*g)),
    ensures
        forall|x: Coord| #[trigger]
            free@.contains(x) <==> (in_bounds(x, master_view(*g).len(), master_width(*g))
                && !claimed_at(master_view(*g), x)),
{
    let rows = master_rows(g);
    let cols = master_cols(g);
    let mut free: Vec<Coord> = Vec::new();
    let mut r: usize = 0;
    while r < rows
        invariant
            r <= rows,
            rows == master_view(*g).len(),
            cols == master_width(*g),
            rect(master_view(*g), cols as nat),
            forall|x: Coord| #[trigger]
                free@.contains(x) <==> (scanned(x, r as int, 0, cols as int) && !claimed_at(
                    master_view(*g),
                    x,
                )),
        decreases rows - r,
    {
        let mut c: usize = 0;
        while c < cols
            invariant
                r < rows,
                c <= cols,
                rows == master_view(*g).len(),
                cols == master_width(*g),
                rect(master_view(*g), cols as nat),
                forall|x: Coord| #[trigger]
                    free@.contains(x) <==> (scanned(x, r as int, c as int, cols as int)
                        && !claimed_at(master_view(*g), x)),
            decreases cols - c,
        {
            let inst = master_get(g, r, c);
            let ghost before = free@;
            if inst.group.is_none() {
                free.push(Coord::new(r, c));
            }
            proof {
                broadcast use vstd::seq_lib::lemma_seq_contains_after_push;

                let here = Coord { row: r, col: c };
                assert forall|x: Coord| #[trigger]
                    free@.contains(x) <==> (scanned(x, r as int, c + 1, cols as int)
                        && !claimed_at(master_view(*g), x)) by {
                    if x == here {
                        assert(claimed_at(master_view(*g), here) <==> master_view(
                            *g,
                        )[r as int][c as int].group is Some);
                    } else {
                        assert(scanned(x, r as int, c + 1, cols as int) <==> scanned(
                            x,
                            r as int,
                            c as int,
                            cols as int,
                        ));
                        assert(free@.contains(x) <==> before.contains(x));
                    }
                }
            }
            c = c + 1;
        }
        proof {
            assert forall|x: Coord|
                scanned(x, r + 1, 0, cols as int) <==> scanned(
                    x,
                    r as int,
                    cols as int,
                    cols as int,
                ) by {}
        }
        r = r + 1;
    }
    free
}

/// Claims one unclaimed cell for the group at index `gi`: appends the cell
/// to the group's history and stores a claim record holding a value copy of
/// the group taken after the append, the cell's address, and a fresh
/// sub-grid.
fn claim_cell(
    grid: &mut grid::Grid<GroupInstance>,
    groups: &mut Vec<Grouping>,
    gi: usize,
    target: Coord,
    inner_rows: usize,
    inner_cols: usize,
)
    requires
        gi < old(groups)@.len(),
        engine_inv(
            old(groups)@,
            master_view(*old(grid)),
            master_view(*old(grid)).len(),
            master_width(*old(grid)),
        ),
        in_bounds(target, master_view(*old(grid)).len(), master_width(*old(grid))),
        !claimed_at(master_view(*old(grid)), target),
        claimed_cells_sized(
            master_view(*old(grid)),
            master_view(*old(grid)).len(),
            master_width(*old(grid)),
            inner_rows as int,
            inner_cols as int,
        ),
        1 <= inner_rows,
        1 <= inner_cols,
        inner_rows * inner_cols <= usize::MAX,
    ensures
        master_view(*final(grid)).len() == master_view(*old(grid)).len(),
        master_width(*final(grid)) == master_width(*old(grid)),
        engine_inv(
            final(groups)@,
            master_view(*final(grid)),
            master_view(*old(grid)).len(),
            master_width(*old(grid)),
        ),
        claimed_cells_sized(
            master_view(*final(grid)),
            master_view(*old(grid)).len(),
            master_width(*old(grid)),
            inner_rows as int,
            inner_cols as int,
        ),
        final(groups)@.len() == old(groups)@.len(),
        forall|i: int|
            0 <= i < old(groups)@.len() && i != gi ==> final(groups)@[i] == old(groups)@[i],
        final(groups)@[gi as int].locations@ == old(groups)@[gi as int].locations@.push(target),
        final(groups)@[gi as int].name == old(groups)@[gi as int].name,
        final(groups)@[gi as int].rgb_color == old(groups)@[gi as int].rgb_color,
        forall|c: Coord|
            in_bounds(c, master_view(*old(grid)).len(), master_width(*old(grid))) ==> (
            #[trigger] claimed_at(master_view(*final(grid)), c) <==> (claimed_at(
                master_view(*old(grid)),
                c,
            ) || c == target)),
        total_locations(final(groups)@) == total_locations(old(groups)@) + 1,
        forall|c: Coord|
            in_bounds(c, master_view(*old(grid)).len(), master_width(*old(grid))) && c != target
                ==> master_view(*final(grid))[c.row as int][#[trigger] (c.col as int)]
                    == master_view(*old(grid))[c.row as int][c.col as int],
        master_view(*final(grid))[target.row as int][target.col as int].coord == Some(target),
        master_view(*final(grid))[target.row as int][target.col as int].group is Some,
        master_view(*final(grid))[target.row as int][target.col as int].group->0.locations@
            == final(groups)@[gi as int].locations@,
        master_view(*final(grid))[target.row as int][target.col as int].group->0.name@
            == final(groups)@[gi as int].name@,
        forall|i: int, j: int|
            0 <= i < inner_rows && 0 <= j < inner_cols ==> (#[trigger] crate::grids::sub_view(
                master_view(*final(grid))[target.row as int][target.col as int].sub_grid,
            )[i][j]) == crate::grouping::default_building(),
{
    let ghost gs0 = groups@;
    let ghost v0 = master_view(*grid);
    let ghost rows = master_view(*grid).len();
    let ghost cols = master_width(*grid);
    groups[gi].locations.push(target);
    let snapshot = groups[gi].duplicate();
    let inst = GroupInstance::new(snapshot, target, inner_rows, inner_cols);
    master_set(grid, target.row, target.col, inst);
    proof {
        broadcast use vstd::seq_lib::lemma_seq_contains_after_push;

        let gs1 = groups@;
        let v1 = master_view(*grid);
        let tr = target.row as int;
        let tc = target.col as int;
        assert(gs1 =~= gs0.update(gi as int, gs1[gi as int]));
        lemma_total_locations_update(gs0, gi as int, gs1[gi as int]);
        // cells other than the target are untouched
        assert forall|c: Coord|
            in_bounds(c, rows, cols) && c != target implies v1[c.row as int][c.col as int]
            == v0[c.row as int][c.col as int] by {
            if c.row as int != tr {
                assert(v1[c.row as int] == v0[c.row as int]);
            }
        }
        assert(claimed_at(v1, target));
        // the freshly recorded cell did not appear in any history before
        assert forall|k: int|
            0 <= k < gs0[gi as int].locations@.len() implies gs0[gi as int].locations@[k]
            != target by {
            assert(claimed_at(v0, gs0[gi as int].locations@[k]));
        }
        // no duplicates in the extended history
        assert(gs1[gi as int].locations@.no_duplicates()) by {
            let s = gs1[gi as int].locations@;
            assert forall|p: int, q: int|
                0 <= p < s.len() && 0 <= q < s.len() && p != q implies s[p] != s[q] by {
                if p < s.len() - 1 && q < s.len() - 1 {
                    assert(gs0[gi as int].locations@.no_duplicates());
                }
            }
        }
        // every recorded cell is still in bounds and claimed
        assert forall|i: int, k: int|
            0 <= i < gs1.len() && 0 <= k < gs1[i].locations@.len() implies in_bounds(
            #[trigger] gs1[i].locations@[k],
            rows,
            cols,
        ) && claimed_at(v1, gs1[i].locations@[k]) by {
            if i != gi as int || k < gs1[i].locations@.len() - 1 {
                assert(gs0[i].locations@[k] == gs1[i].locations@[k]);
                assert(claimed_at(v0, gs1[i].locations@[k]));
            }
        }
        // pairwise disjointness still holds
        assert forall|i: int, j: int, k: int, l: int|
            #![trigger gs1[i].locations@[k], gs1[j].locations@[l]]
            0 <= i < gs1.len() && 0 <= j < gs1.len() && i != j && 0 <= k
                < gs1[i].locations@.len() && 0 <= l
                < gs1[j].locations@.len() implies gs1[i].locations@[k]
            != gs1[j].locations@[l] by {
            if i == gi as int && k == gs1[i].locations@.len() - 1 {
                assert(claimed_at(v0, gs0[j].locations@[l]));
            } else if j == gi as int && l == gs1[j].locations@.len() - 1 {
                assert(claimed_at(v0, gs0[i].locations@[k]));
            } else {
                assert(gs0[i].locations@[k] != gs0[j].locations@[l]);
            }
        }
        // claimed cells keep their sub-grid dimensions; the new one gets them
        assert forall|c: Coord|
            in_bounds(c, rows, cols) && #[trigger] claimed_at(v1, c) implies {
            let sg = v1[c.row as int][c.col as int].sub_grid;
            &&& crate::grids::sub_view(sg).len() == inner_rows
            &&& crate::grids::sub_width(sg) == inner_cols
            &&& rect(crate::grids::sub_view(sg), crate::grids::sub_width(sg))
        } by {
            if c != target {
                assert(v1[c.row as int][c.col as int] == v0[c.row as int][c.col as int]);
                assert(claimed_at(v0, c));
            }
        }
        // every claimed cell is still recorded somewhere
        assert forall|c: Coord|
            in_bounds(c, rows, cols) && #[trigger] claimed_at(v1, c) implies located(gs1, c) by {
            if c == target {
                let k = gs1[gi as int].locations@.len() - 1;
                assert(gs1[gi as int].locations@[k] == target);
            } else {
                assert(claimed_at(v0, c));
                let (i, k) = choose|i: int, k: int|
                    0 <= i < gs0.len() && 0 <= k < gs0[i].locations@.len()
                        && gs0[i].locations@[k] == c;
                if i == gi as int {
                    assert(gs1[i].locations@[k] == c);
                } else {
                    assert(gs1[i].locations@[k] == c);
                }
            }
        }
    }
}

/// Seeds the master grid: gives every group exactly one starting cell,
/// drawn uniformly from the cells that are still unclaimed, and records the
/// matching claim in the grid.
pub fn prime_grid_with_groups(
    grid: &mut grid::Grid<GroupInstance>,
    groups: &mut Vec<Grouping>,
    rng: &mut rand::rngs::ThreadRng,
    inner_rows: usize,
    inner_cols: usize,
)
    requires
        1 <= master_view(*old(grid)).len() <= MAX_GRID_DIM,
        1 <= master_width(*old(grid)) <= MAX_GRID_DIM,
        rect(master_view(*old(grid)), master_width(*old(grid))),
        forall|c: Coord|
            in_bounds(c, master_view(*old(grid)).len(), master_width(*old(grid)))
                ==> !#[trigger] claimed_at(master_view(*old(grid)), c),
        forall|i: int|
            0 <= i < old(groups)@.len() ==> (#[trigger] old(groups)@[i]).locations@.len() == 0,
        old(groups)@.len() <= master_view(*old(grid)).len() * master_width(*old(grid)),
        1 <= inner_rows,
        1 <= inner_cols,
        inner_rows * inner_cols <= usize::MAX,
    ensures
        master_view(*final(grid)).len() == master_view(*old(grid)).len(),
        master_width(*final(grid)) == master_width(*old(grid)),
        engine_inv(
            final(groups)@,
            master_view(*final(grid)),
            master_view(*old(grid)).len(),
            master_width(*old(grid)),
        ),
        claimed_cells_sized(
            master_view(*final(grid)),
            master_view(*old(grid)).len(),
            master_width(*old(grid)),
            inner_rows as int,
            inner_cols as int,
        ),
        final(groups)@.len() == old(groups)@.len(),
        forall|i: int|
            0 <= i < old(groups)@.len() ==> (#[trigger] final(groups)@[i]).locations@.len() == 1,
        forall|i: int|
            0 <= i < old(groups)@.len() ==> (#[trigger] final(groups)@[i]).name == old(
                groups,
            )@[i].name && final(groups)@[i].rgb_color == old(groups)@[i].rgb_color,
        forall|i: int|
            0 <= i < old(groups)@.len() ==> {
                let s = (#[trigger] final(groups)@[i]).locations@[0];
                let rec = master_view(*final(grid))[s.row as int][s.col as int];
                &&& rec.group->0.locations@.len() == 1
                &&& rec.group->0.locations@[0] == s
                &&& forall|r: int, c: int|
                    0 <= r < inner_rows && 0 <= c < inner_cols ==> (
                    #[trigger] crate::grids::sub_view(rec.sub_grid)[r][c])
                        == crate::grouping::default_building()
            },
{
    let ghost rows = master_view(*grid).len();
    let ghost cols = master_width(*grid);
    let ghost gs0 = groups@;
    proof {
        assert forall|c: Coord|
            in_bounds(c, rows, cols) && #[trigger] claimed_at(master_view(*grid), c)
            implies located(groups@, c) by {}
    }
    let mut gi: usize = 0;
    while gi < groups.len()
        invariant
            gi <= groups@.len(),
            groups@.len() == gs0.len(),
            gs0.len() <= rows * cols,
            forall|i: int| 0 <= i < gs0.len() ==> (#[trigger] gs0[i]).locations@.len() == 0,
            1 <= rows <= MAX_GRID_DIM,
            1 <= cols <= MAX_GRID_DIM,
            1 <= inner_rows,
            1 <= inner_cols,
            inner_rows * inner_cols <= usize::MAX,
            master_view(*grid).len() == rows,
            master_width(*grid) == cols,
            engine_inv(groups@, master_view(*grid), rows, cols),
            claimed_cells_sized(
                master_view(*grid),
                rows,
                cols,
                inner_rows as int,
                inner_cols as int,
            ),
            forall|i: int| 0 <= i < gi ==> (#[trigger] groups@[i]).locations@.len() == 1,
            forall|i: int| gi <= i < gs0.len() ==> groups@[i] == gs0[i],
            forall|i: int|
                0 <= i < gi ==> (#[trigger] groups@[i]).name == gs0[i].name
                    && groups@[i].rgb_color == gs0[i].rgb_color,
            forall|i: int|
                0 <= i < gi ==> {
                    let s = (#[trigger] groups@[i]).locations@[0];
                    let rec = master_view(*grid)[s.row as int][s.col as int];
                    &&& rec.group->0.locations@.len() == 1
                    &&& rec.group->0.locations@[0] == s
                    &&& forall|r: int, c: int|
                        0 <= r < inner_rows && 0 <= c < inner_cols ==> (
                        #[trigger] crate::grids::sub_view(rec.sub_grid)[r][c])
                            == crate::grouping::default_building()
                },
        decreases gs0.len() - gi,
    {
        let free = collect_free(grid);
        proof {
            assert forall|i: int|
                gi <= i < groups@.len() implies (#[trigger] groups@[i]).locations@.len() == 0 by {
                assert(groups@[i] == gs0[i]);
                assert(gs0[i].locations@.len() == 0);
            }
            lemma_total_seeded(groups@, gi as int);
            lemma_locations_set_card(groups@);
            if free@.len() == 0 {
                lemma_block_set(
                    master_view(*grid).len() as usize,
                    master_width(*grid) as usize,
                );
                assert forall|c: Coord|
                    block_set(
                        master_view(*grid).len() as usize,
                        master_width(*grid) as usize,
                    ).contains(c) implies locations_set(groups@).contains(c) by {
                    assert(!free@.contains(c));
                    assert(claimed_at(master_view(*grid), c));
                    lemma_located_iff_in_set(groups@, c);
                }
                lemma_len_subset(
                    block_set(master_view(*grid).len() as usize, master_width(*grid) as usize),
                    locations_set(groups@),
                );
                assert(rows * cols <= gi);
                assert(false);
            }
        }
        let pick = rand_below(rng, free.len());
        let seed = free[pick];
        proof {
            assert(free@.contains(free@[pick as int]));
        }
        let ghost before_claim = groups@;
        claim_cell(grid, groups, gi, seed, inner_rows, inner_cols);
        proof {
            assert(before_claim[gi as int].locations@.len() == 0);
            assert(groups@[gi as int].locations@.len() == 1);
        }
        gi = gi + 1;
    }
}
/// seed: each candidate gets selection mass equal to its rounded-up distance
/// from the seed (at least one), and a uniform draw over the total mass
/// picks the winner. A single candidate is returned directly, without
/// consulting the generator. Should the weighted scan ever run past the last
/// candidate, a uniform pick over the candidates stands as a defensive
/// fallback.
pub fn weighted_coord_rng_districts(
    rng: &mut rand::rngs::ThreadRng,
    coords: &Vec<Coord>,
    grouping: &Grouping,
) -> (c: Coord)
    requires
        coords@.len() >= 1,
        coords@.len() <= MAX_GRID_DIM * MAX_GRID_DIM,
        grouping.locations@.len() >= 1,
        grouping.locations@[0].row < MAX_GRID_DIM,
        grouping.locations@[0].col < MAX_GRID_DIM,
        forall|k: int|
            0 <= k < coords@.len()
                ==> (#[trigger] coords@[k]).row < MAX_GRID_DIM && coords@[k].col < MAX_GRID_DIM,
    ensures
        coords@.contains(c),
        coords@.len() == 1 ==> c == coords@[0] && *final(rng) == *old(rng),
{
    if coords.len() == 1 {
        let c = coords[0];
        assert(coords@.contains(c));
        return c;
    }
    let ghost seed = grouping.locations@[0];
    // total selection mass; each weight is at most 1 + 1023 + 1023
    let mut sum: usize = 0;
    let mut i: usize = 0;
    while i < coords.len()
        invariant
            i <= coords@.len(),
            coords@.len() <= MAX_GRID_DIM * MAX_GRID_DIM,
            grouping.locations@.len() >= 1,
            grouping.locations@[0] == seed,
            seed.row < MAX_GRID_DIM,
            seed.col < MAX_GRID_DIM,
            forall|k: int|
                0 <= k < coords@.len()
                    ==> (#[trigger] coords@[k]).row < MAX_GRID_DIM && coords@[k].col
                        < MAX_GRID_DIM,
            sum == weights_prefix(coords@, seed, i as int),
            sum >= i,
            sum <= i * 2047,
        decreases coords@.len() - i,
    {
        let cand = coords[i];
        let w = grouping.weight_from_center(&cand);
        proof {
            assert(i * 2047 + 2047 == (i + 1) * 2047) by (nonlinear_arith) {}
            assert((i + 1) * 2047 <= MAX_GRID_DIM * MAX_GRID_DIM * 2047) by (nonlinear_arith)
                requires
                    i + 1 <= MAX_GRID_DIM * MAX_GRID_DIM,
            {}
            assert(weights_prefix(coords@, seed, i + 1) == weights_prefix(coords@, seed, i as int)
                + growth_weight(seed, cand));
        }
        sum = sum + w;
        i = i + 1;
    }
    let rnd = rand_below(rng, sum);
    match coord_from_draw(coords, grouping, rnd) {
        Some(c) => {
            proof {
                let k = choose|k: int|
                    0 <= k < coords@.len() && #[trigger] weights_prefix(coords@, seed, k) <= rnd
                        < weights_prefix(coords@, seed, k + 1) && c == coords@[k];
                assert(coords@.contains(coords@[k]));
            }
            c
        },
        None => {
            // defensive fallback; the draw lies below the total mass, so the
            // scan cannot actually run past the end
            let k = rand_below(rng, coords.len());
            let c = coords[k];
            assert(coords@.contains(c));
            c
        },
    }
}

/// How many of the first `upto` groups kept their claim history unchanged
/// between `before` and `after`.
pub open spec fn count_unchanged(before: Seq<Grouping>, after: Seq<Grouping>, upto: int) -> int
    decreases upto,
{
    if upto <= 0 {
        0
    } else {
        count_unchanged(before, after, upto - 1) + if after[upto - 1].locations@.len() == before[
            upto - 1].locations@.len() {
            1int
        } else {
            0int
        }
    }
}

/// The unchanged-count reads only the first `upto` entries of `after`.
proof fn lemma_count_unchanged_agree(
    before: Seq<Grouping>,
    a1: Seq<Grouping>,
    a2: Seq<Grouping>,
    upto: int,
)
    requires
        0 <= upto,
        forall|i: int| 0 <= i < upto ==> a1[i] == a2[i],
    ensures
        count_unchanged(before, a1, upto) == count_unchanged(before, a2, upto),
    decreases upto,
{
    if upto > 0 {
        lemma_count_unchanged_agree(before, a1, a2, upto - 1);
    }
}

/// Runs one expansion round. Every group that has an unclaimed cell next to
/// its territory claims exactly one such cell, picked by the weighted
/// selector; a group with none is counted as enclosed for this round.
/// Returns how many groups were found enclosed: exactly the groups whose
/// history this round left unchanged.
pub fn advance_group_expansion(
    grid: &mut grid::Grid<GroupInstance>,
    groups: &mut Vec<Grouping>,
    rng: &mut rand::rngs::ThreadRng,
    inner_rows: usize,
    inner_cols: usize,
) -> (num_enclosed: usize)
    requires
        1 <= master_view(*old(grid)).len() <= MAX_GRID_DIM,
        1 <= master_width(*old(grid)) <= MAX_GRID_DIM,
        engine_inv(
            old(groups)@,
            master_view(*old(grid)),
            master_view(*old(grid)).len(),
            master_width(*old(grid)),
        ),
        claimed_cells_sized(
            master_view(*old(grid)),
            master_view(*old(grid)).len(),
            master_width(*old(grid)),
            inner_rows as int,
            inner_cols as int,
        ),
        forall|i: int|
            0 <= i < old(groups)@.len() ==> (#[trigger] old(groups)@[i]).locations@.len() >= 1,
        1 <= inner_rows,
        1 <= inner_cols,
        inner_rows * inner_cols <= usize::MAX,
    ensures
        master_view(*final(grid)).len() == master_view(*old(grid)).len(),
        master_width(*final(grid)) == master_width(*old(grid)),
        engine_inv(
            final(groups)@,
            master_view(*final(grid)),
            master_view(*old(grid)).len(),
            master_width(*old(grid)),
        ),
        claimed_cells_sized(
            master_view(*final(grid)),
            master_view(*old(grid)).len(),
            master_width(*old(grid)),
            inner_rows as int,
            inner_cols as int,
        ),
        final(groups)@.len() == old(groups)@.len(),
        forall|i: int|
            0 <= i < old(groups)@.len()
                ==> (#[trigger] final(groups)@[i]).name == old(groups)@[i].name
                    && final(groups)@[i].rgb_color == old(groups)@[i].rgb_color
                    && final(groups)@[i].locations@.len() >= 1,
        forall|i: int|
            0 <= i < old(groups)@.len()
                ==> old(groups)@[i].locations@.len() <= (#[trigger] final(groups)@[i]).locations@.len()
                    <= old(groups)@[i].locations@.len() + 1,
        forall|i: int, k: int|
            0 <= i < old(groups)@.len() && 0 <= k < old(groups)@[i].locations@.len()
                ==> #[trigger] final(groups)@[i].locations@[k] == old(groups)@[i].locations@[k],
        num_enclosed <= old(groups)@.len(),
        num_enclosed == count_unchanged(old(groups)@, final(groups)@, old(groups)@.len() as int),
        forall|c: Coord|
            in_bounds(c, master_view(*old(grid)).len(), master_width(*old(grid)))
                && claimed_at(master_view(*old(grid)), c)
                ==> master_view(*final(grid))[c.row as int][#[trigger] (c.col as int)]
                    == master_view(*old(grid))[c.row as int][c.col as int],
        forall|i: int|
            0 <= i < old(groups)@.len() && (#[trigger] final(groups)@[i]).locations@.len() == old(
                groups,
            )@[i].locations@.len() + 1 ==> {
                let newc = final(groups)@[i].locations@.last();
                &&& !claimed_at(master_view(*old(grid)), newc)
                &&& exists|l: int|
                    0 <= l < old(groups)@[i].locations@.len() && orth_adjacent(
                        #[trigger] old(groups)@[i].locations@[l],
                        newc,
                    )
            },
        num_enclosed < old(groups)@.len() ==> total_locations(final(groups)@) > total_locations(
            old(groups)@,
        ),
        num_enclosed == old(groups)@.len() ==> final(groups)@ == old(groups)@ && master_view(
            *final(grid),
        ) == master_view(*old(grid)) && (forall|i: int|
            0 <= i < old(groups)@.len() ==> region_enclosed(
                #[trigger] final(groups)@[i],
                master_view(*final(grid)),
                master_view(*old(grid)).len(),
                master_width(*old(grid)),
            )),
{
    let ghost gs0 = groups@;
    let ghost v0 = master_view(*grid);
    let ghost rows = master_view(*grid).len();
    let ghost cols = master_width(*grid);
    let mut num_enclosed: usize = 0;
    let mut gi: usize = 0;
    while gi < groups.len()
        invariant
            gi <= gs0.len(),
            groups@.len() == gs0.len(),
            num_enclosed <= gi,
            1 <= rows <= MAX_GRID_DIM,
            1 <= cols <= MAX_GRID_DIM,
            1 <= inner_rows,
            1 <= inner_cols,
            inner_rows * inner_cols <= usize::MAX,
            master_view(*grid).len() == rows,
            master_width(*grid) == cols,
            engine_inv(groups@, master_view(*grid), rows, cols),
            claimed_cells_sized(
                master_view(*grid),
                rows,
                cols,
                inner_rows as int,
                inner_cols as int,
            ),
            forall|i: int|
                0 <= i < gs0.len() ==> (#[trigger] groups@[i]).name == gs0[i].name
                    && groups@[i].rgb_color == gs0[i].rgb_color && groups@[i].locations@.len()
                    >= 1,
            forall|i: int|
                0 <= i < gs0.len() ==> gs0[i].locations@.len() <= (
                #[trigger] groups@[i]).locations@.len() <= gs0[i].locations@.len() + 1,
            forall|i: int, k: int|
                0 <= i < gs0.len() && 0 <= k < gs0[i].locations@.len()
                    ==> #[trigger] groups@[i].locations@[k] == gs0[i].locations@[k],
            forall|i: int| gi <= i < gs0.len() ==> groups@[i] == gs0[i],
            num_enclosed == count_unchanged(gs0, groups@, gi as int),
            forall|c: Coord|
                in_bounds(c, rows, cols) && claimed_at(v0, c) ==> master_view(
                    *grid,
                )[c.row as int][#[trigger] (c.col as int)] == v0[c.row as int][c.col as int],
            forall|i: int|
                0 <= i < gs0.len() && (#[trigger] groups@[i]).locations@.len()
                    == gs0[i].locations@.len() + 1 ==> {
                    let newc = groups@[i].locations@.last();
                    &&& !claimed_at(v0, newc)
                    &&& exists|l: int|
                        0 <= l < gs0[i].locations@.len() && orth_adjacent(
                            #[trigger] gs0[i].locations@[l],
                            newc,
                        )
                },
            total_locations(groups@) == total_locations(gs0) + gi - num_enclosed,
            num_enclosed == gi ==> groups@ == gs0 && master_view(*grid) == v0 && (forall|j: int|
                0 <= j < gi ==> region_enclosed(
                    #[trigger] groups@[j],
                    master_view(*grid),
                    rows,
                    cols,
                )),
        decreases gs0.len() - gi,
    {
        let rows_n = master_rows(grid);
        let cols_n = master_cols(grid);
        proof {
            assert forall|k: int|
                0 <= k < groups@[gi as int].locations@.len() implies (#[trigger] groups@[
                gi as int].locations@[k]).row <= rows_n - 1 && groups@[gi as int].locations@[k].col
                <= cols_n - 1 by {
                assert(in_bounds(groups@[gi as int].locations@[k], rows, cols));
            }
        }
        let adjacent_coords = groups[gi].get_adjacent_coords(rows_n - 1, cols_n - 1, false);
        let ghost gs_turn = groups@;
        let ghost v_turn = master_view(*grid);
        let mut open_coords: Vec<Coord> = Vec::new();
        let mut k: usize = 0;
        while k < adjacent_coords.len()
            invariant
                k <= adjacent_coords@.len(),
                open_coords@.len() <= k,
                master_view(*grid) == v_turn,
                master_width(*grid) == cols,
                v_turn.len() == rows,
                forall|x: Coord| #[trigger]
                    adjacent_coords@.contains(x) ==> x.row < rows && x.col < cols,
                forall|x: Coord| #[trigger]
                    open_coords@.contains(x) ==> adjacent_coords@.contains(x) && !claimed_at(
                        v_turn,
                        x,
                    ),
                forall|j: int|
                    0 <= j < k && !claimed_at(v_turn, #[trigger] adjacent_coords@[j])
                        ==> open_coords@.contains(adjacent_coords@[j]),
            decreases adjacent_coords@.len() - k,
        {
            let cand = adjacent_coords[k];
            proof {
                assert(adjacent_coords@.contains(adjacent_coords@[k as int]));
            }
            let inst = master_get(grid, cand.row, cand.col);
            let ghost before = open_coords@;
            if inst.group.is_none() {
                open_coords.push(cand);
            }
            proof {
                broadcast use vstd::seq_lib::lemma_seq_contains_after_push;

                assert forall|j: int|
                    0 <= j < k + 1 && !claimed_at(
                        v_turn,
                        #[trigger] adjacent_coords@[j],
                    ) implies open_coords@.contains(adjacent_coords@[j]) by {
                    if j < k {
                        assert(before.contains(adjacent_coords@[j]));
                    }
                }
            }
            k = k + 1;
        }

        if open_coords.len() == 0 {
            num_enclosed = num_enclosed + 1;
            proof {
                assert(groups@[gi as int] == gs0[gi as int]);
                assert(count_unchanged(gs0, groups@, gi + 1) == count_unchanged(
                    gs0,
                    groups@,
                    gi as int,
                ) + 1);
                if num_enclosed == gi + 1 {
                    assert(region_enclosed(groups@[gi as int], master_view(*grid), rows, cols))
                        by {
                        let g = groups@[gi as int];
                        assert forall|l: int, n: Coord|
                            0 <= l < g.locations@.len() && #[trigger] orth_adjacent(
                                g.locations@[l],
                                n,
                            ) && in_bounds(n, rows, cols) implies claimed_at(
                            master_view(*grid),
                            n,
                        ) by {
                            if !g.locations@.contains(n) {
                                assert(adjacent_mode(g.locations@[l], n, false));
                                assert(adjacent_coords@.contains(n));
                                let j = choose|j: int|
                                    0 <= j < adjacent_coords@.len() && adjacent_coords@[j] == n;
                                if !claimed_at(v_turn, n) {
                                    assert(open_coords@.contains(adjacent_coords@[j]));
                                    assert(false);
                                }
                            } else {
                                let l2 = choose|l2: int|
                                    0 <= l2 < g.locations@.len() && g.locations@[l2] == n;
                                assert(claimed_at(master_view(*grid), g.locations@[l2]));
                            }
                        }
                    }
                }
            }
        } else {
            proof {
                assert forall|j: int| 0 <= j < adjacent_coords@.len() implies in_bounds(
                    #[trigger] adjacent_coords@[j],
                    rows_n as nat,
                    cols_n as nat,
                ) by {
                    assert(adjacent_coords@.contains(adjacent_coords@[j]));
                }
                lemma_coord_list_len(adjacent_coords@, rows_n, cols_n);
                assert(rows_n * cols_n <= MAX_GRID_DIM * MAX_GRID_DIM) by (nonlinear_arith)
                    requires
                        1 <= rows_n <= MAX_GRID_DIM,
                        1 <= cols_n <= MAX_GRID_DIM,
                {}
                assert forall|j: int|
                    0 <= j < open_coords@.len() implies (#[trigger] open_coords@[j]).row
                    < MAX_GRID_DIM && open_coords@[j].col < MAX_GRID_DIM by {
                    assert(open_coords@.contains(open_coords@[j]));
                }
                assert(in_bounds(groups@[gi as int].locations@[0], rows, cols));
            }
            let coord_to_use = weighted_coord_rng_districts(rng, &open_coords, &groups[gi]);
            proof {
                assert(open_coords@.contains(coord_to_use));
            }
            let ghost total_before = total_locations(groups@);
            claim_cell(grid, groups, gi, coord_to_use, inner_rows, inner_cols);
            proof {
                assert(total_locations(groups@) == total_before + 1);
                lemma_count_unchanged_agree(gs0, groups@, gs_turn, gi as int);
                assert(groups@[gi as int].locations@.len() == gs0[gi as int].locations@.len() + 1);
                assert(count_unchanged(gs0, groups@, gi + 1) == count_unchanged(
                    gs0,
                    groups@,
                    gi as int,
                ));
            }
        }
        gi = gi + 1;
    }
    proof {
        if num_enclosed == gs0.len() {
            assert(groups@ == gs0);
        }
    }
    num_enclosed
}

/// Runs a full generation: clears every group's history, seeds each group
/// on a fresh master grid, then repeats expansion rounds until every group
/// is enclosed in the same round. On return every cell of the grid is
/// claimed, the groups' claim histories partition the grid exactly, and no
/// group could grow any further.
pub fn generate(
    groups: &mut Vec<Grouping>,
    master_rows_n: usize,
    master_cols_n: usize,
    inner_rows: usize,
    inner_cols: usize,
    rng: &mut rand::rngs::ThreadRng,
) -> (g: grid::Grid<GroupInstance>)
    requires
        1 <= old(groups)@.len(),
        old(groups)@.len() <= master_rows_n * master_cols_n,
        1 <= master_rows_n <= MAX_GRID_DIM,
        1 <= master_cols_n <= MAX_GRID_DIM,
        1 <= inner_rows,
        1 <= inner_cols,
        inner_rows * inner_cols <= usize::MAX,
    ensures
        final(groups)@.len() == old(groups)@.len(),
        forall|i: int|
            0 <= i < old(groups)@.len()
                ==> (#[trigger] final(groups)@[i]).name == old(groups)@[i].name
                    && final(groups)@[i].rgb_color == old(groups)@[i].rgb_color
                    && final(groups)@[i].locations@.len() >= 1,
        master_view(g).len() == master_rows_n,
        master_width(g) == master_cols_n,
        engine_inv(final(groups)@, master_view(g), master_rows_n as nat, master_cols_n as nat),
        forall|c: Coord|
            in_bounds(c, master_rows_n as nat, master_cols_n as nat) ==> #[trigger] claimed_at(
                master_view(g),
                c,
            ),
        forall|i: int|
            0 <= i < old(groups)@.len() ==> region_enclosed(
                #[trigger] final(groups)@[i],
                master_view(g),
                master_rows_n as nat,
                master_cols_n as nat,
            ),
        total_locations(final(groups)@) == master_rows_n * master_cols_n,
        claimed_cells_sized(
            master_view(g),
            master_rows_n as nat,
            master_cols_n as nat,
            inner_rows as int,
            inner_cols as int,
        ),
        inner_rows + inner_cols <= 300 ==> crate::neighborhood::subgrids_ready(
            master_view(g),
            master_cols_n as nat,
        ),
{
    let ghost gs0 = groups@;
    // a fresh run starts from cleared claim histories
    let mut i: usize = 0;
    while i < groups.len()
        invariant
            i <= gs0.len(),
            groups@.len() == gs0.len(),
            forall|j: int| 0 <= j < i ==> (#[trigger] groups@[j]).locations@.len() == 0,
            forall|j: int|
                0 <= j < i ==> (#[trigger] groups@[j]).name == gs0[j].name
                    && groups@[j].rgb_color == gs0[j].rgb_color,
            forall|j: int| i <= j < gs0.len() ==> groups@[j] == gs0[j],
        decreases gs0.len() - i,
    {
        groups[i].locations = Vec::new();
        i = i + 1;
    }

    let mut city_grid = create_empty_grid(master_rows_n, master_cols_n);
    prime_grid_with_groups(&mut city_grid, groups, rng, inner_rows, inner_cols);
    let ghost gs1 = groups@;

    loop
        invariant_except_break
            groups@.len() == gs0.len(),
            1 <= gs0.len(),
            master_view(city_grid).len() == master_rows_n,
            master_width(city_grid) == master_cols_n,
            1 <= master_rows_n <= MAX_GRID_DIM,
            1 <= master_cols_n <= MAX_GRID_DIM,
            1 <= inner_rows,
            1 <= inner_cols,
            inner_rows * inner_cols <= usize::MAX,
            engine_inv(groups@, master_view(city_grid), master_rows_n as nat, master_cols_n as nat),
            claimed_cells_sized(
                master_view(city_grid),
                master_rows_n as nat,
                master_cols_n as nat,
                inner_rows as int,
                inner_cols as int,
            ),
            forall|j: int|
                0 <= j < gs0.len() ==> (#[trigger] groups@[j]).name == gs1[j].name
                    && groups@[j].rgb_color == gs1[j].rgb_color && groups@[j].locations@.len()
                    >= 1,
            forall|j: int|
                0 <= j < gs0.len() ==> (#[trigger] gs1[j]).name == gs0[j].name
                    && gs1[j].rgb_color == gs0[j].rgb_color,
        ensures
            groups@.len() == gs0.len(),
            master_view(city_grid).len() == master_rows_n,
            master_width(city_grid) == master_cols_n,
            engine_inv(groups@, master_view(city_grid), master_rows_n as nat, master_cols_n as nat),
            claimed_cells_sized(
                master_view(city_grid),
                master_rows_n as nat,
                master_cols_n as nat,
                inner_rows as int,
                inner_cols as int,
            ),
            forall|j: int|
                0 <= j < gs0.len() ==> (#[trigger] groups@[j]).name == gs0[j].name
                    && groups@[j].rgb_color == gs0[j].rgb_color && groups@[j].locations@.len()
                    >= 1,
            forall|j: int|
                0 <= j < gs0.len() ==> region_enclosed(
                    #[trigger] groups@[j],
                    master_view(city_grid),
                    master_rows_n as nat,
                    master_cols_n as nat,
                ),
        decreases master_rows_n * master_cols_n - total_locations(groups@),
    {
        let ghost total_before = total_locations(groups@);
        let num_enclosed = advance_group_expansion(
            &mut city_grid,
            groups,
            rng,
            inner_rows,
            inner_cols,
        );
        if num_enclosed == groups.len() {
            break;
        }
        proof {
            lemma_total_locations_bounded(
                groups@,
                master_view(city_grid),
                master_rows_n,
                master_cols_n,
            );
            assert(total_locations(groups@) > total_before);
        }
    }

    proof {
        lemma_enclosed_covers(groups@, master_view(city_grid), master_rows_n, master_cols_n);
        // every cell is claimed, so the histories cover the whole grid
        lemma_locations_set_card(groups@);
        lemma_block_set(master_rows_n, master_cols_n);
        assert forall|c: Coord|
            block_set(master_rows_n, master_cols_n).contains(c) implies locations_set(
            groups@,
        ).contains(c) by {
            assert(claimed_at(master_view(city_grid), c));
            lemma_located_iff_in_set(groups@, c);
        }
        assert forall|c: Coord|
            locations_set(groups@).contains(c) implies block_set(
            master_rows_n,
            master_cols_n,
        ).contains(c) by {
            lemma_located_iff_in_set(groups@, c);
            let (i, k) = choose|i: int, k: int|
                0 <= i < groups@.len() && 0 <= k < groups@[i].locations@.len()
                    && groups@[i].locations@[k] == c;
            assert(in_bounds(groups@[i].locations@[k], master_rows_n as nat, master_cols_n as nat));
        }
        assert(locations_set(groups@) =~= block_set(master_rows_n, master_cols_n));
        if inner_rows + inner_cols <= 300 {
            assert forall|i: int, j: int|
                0 <= i < master_view(city_grid).len() && 0 <= j < master_width(
                    city_grid,
                ) implies {
                let sg = (#[trigger] master_view(city_grid)[i][j]).sub_grid;
                &&& 1 <= crate::grids::sub_view(sg).len()
                &&& 1 <= crate::grids::sub_width(sg)
                &&& crate::grids::sub_view(sg).len() + crate::grids::sub_width(sg) <= 300
                &&& rect(crate::grids::sub_view(sg), crate::grids::sub_width(sg))
            } by {
                let c = Coord { row: i as usize, col: j as usize };
                assert(claimed_at(master_view(city_grid), c));
            }
        }
    }
    city_grid
}

} // verus!

