//! The neighborhood synthesizer: lays roads through one claimed cell's
//! private sub-grid, derives a color palette, and classifies the remaining
//! cells into building types.
use vstd::prelude::*;
use crate::grouping::Building;
use crate::grouping::BuildingType;
use crate::grouping::GroupInstance;
use crate::grids::master_view;
use crate::grids::master_width;
use crate::grids::master_rows;
use crate::grids::master_cols;
use crate::grids::master_get_mut;
use crate::grids::sub_view;
use crate::grids::sub_width;
use crate::grids::sub_rows;
use crate::grids::sub_cols;
use crate::grids::sub_get;
use crate::grids::sub_set;
use crate::grids::rect;
use crate::rng::rand_below;

verus! {

/// The fixed look of every deliberately placed road cell.
pub open spec fn road_building() -> Building {
    Building { build_type: BuildingType::Road, rgb_color: (55u8, 55u8, 55u8) }
}

/// Fewest roads laid through a sub-grid with `n` rows plus columns:
/// fifteen percent of `n`, rounded up.
pub open spec fn road_total_low(n: int) -> int {
    (3 * n + 19) / 20
}

/// Exclusive cap on the roads laid through a sub-grid with `n` rows plus
/// columns: forty percent of `n`, rounded up.
pub open spec fn road_total_high(n: int) -> int {
    (2 * n + 4) / 5
}

/// The number of channel levels the palette generator draws from.
pub open spec fn px_num_of(nc: int) -> int {
    if 42 >= 2 * nc {
        42
    } else {
        2 * nc
    }
}

/// The spacing between palette channel levels.
pub open spec fn px_step_of(nc: int) -> int {
    255int / px_num_of(nc)
}

/// The `i`-th channel level of a palette of `nc` colors.
pub open spec fn channel_level(i: int, nc: int) -> int {
    i * px_step_of(nc)
}

/// `x` is a channel level the palette generator can produce for a palette
/// of `nc` colors.
pub open spec fn palette_channel_valid(x: u8, nc: int) -> bool {
    exists|i: int| 1 <= i <= px_num_of(nc) - 2 && x == #[trigger] channel_level(i, nc)
}

/// `c` is a color the palette generator can produce for a palette of `nc`
/// colors.
pub open spec fn palette_color_valid(c: (u8, u8, u8), nc: int) -> bool {
    palette_channel_valid(c.0, nc) && palette_channel_valid(c.1, nc) && palette_channel_valid(
        c.2,
        nc,
    )
}

/// Linear membership test on a list of colors.
fn contains_rgb(v: &Vec<(u8, u8, u8)>, c: (u8, u8, u8)) -> (b: bool)
    ensures
        b == v@.contains(c),
{
    let mut i: usize = 0;
    while i < v.len()
        invariant
            i <= v@.len(),
            forall|k: int| 0 <= k < i ==> v@[k] != c,
        decreases v@.len() - i,
    {
        let e = v[i];
        if e.0 == c.0 && e.1 == c.1 && e.2 == c.2 {
            proof {
                assert(v@[i as int] == c);
            }
            return true;
        }
        i = i + 1;
    }
    false
}

/// Draws `k` distinct indices below `n`, uniformly without replacement: a
/// shrinking pool of the remaining indices is sampled once per pick.
fn sample_distinct(rng: &mut rand::rngs::ThreadRng, n: usize, k: usize) -> (out: Vec<usize>)
    requires
        k <= n,
    ensures
        out@.len() == k,
        out@.no_duplicates(),
        forall|j: int| 0 <= j < out@.len() ==> out@[j] < n,
{
    let mut pool: Vec<usize> = Vec::new();
    let mut i: usize = 0;
    while i < n
        invariant
            i <= n,
            pool@.len() == i,
            forall|j: int| 0 <= j < i ==> pool@[j] == j,
        decreases n - i,
    {
        pool.push(i);
        i = i + 1;
    }
    proof {
        assert forall|p: int, q: int|
            0 <= p < pool@.len() && 0 <= q < pool@.len() && p != q implies pool@[p]
            != pool@[q] by {}
    }
    let mut out: Vec<usize> = Vec::new();
    while out.len() < k
        invariant
            k <= n,
            out@.len() <= k,
            out@.len() + pool@.len() == n,
            out@.no_duplicates(),
            pool@.no_duplicates(),
            forall|j: int| 0 <= j < out@.len() ==> out@[j] < n,
            forall|j: int| 0 <= j < pool@.len() ==> pool@[j] < n,
            forall|x: usize| out@.contains(x) ==> !pool@.contains(x),
        decreases k - out@.len(),
    {
        let j = rand_below(rng, pool.len());
        let ghost pool0 = pool@;
        let val = pool.swap_remove(j);
        proof {
            broadcast use vstd::seq_lib::lemma_seq_contains_after_push;

            assert(pool0.contains(pool0[j as int]));
            // after the swap-removal the pool holds the old entries except `val`
            assert forall|x: usize| pool@.contains(x) implies pool0.contains(x) && x != val by {
                let idx = choose|idx: int| 0 <= idx < pool@.len() && pool@[idx] == x;
                if idx == j as int {
                    assert(pool0[pool0.len() - 1] == x);
                } else {
                    assert(pool0[idx] == x);
                }
                if x == val {
                    let idx2: int = if idx == j as int {
                        pool0.len() - 1
                    } else {
                        idx
                    };
                    assert(pool0[idx2] == pool0[j as int]);
                    assert(idx2 != j as int ==> false);
                }
            }
            assert(pool@.no_duplicates()) by {
                assert forall|p: int, q: int|
                    0 <= p < pool@.len() && 0 <= q < pool@.len() && p != q implies pool@[p]
                    != pool@[q] by {
                    let vp: int = if p == j as int {
                        pool0.len() - 1
                    } else {
                        p
                    };
                    let vq: int = if q == j as int {
                        pool0.len() - 1
                    } else {
                        q
                    };
                    assert(pool@[p] == pool0[vp]);
                    assert(pool@[q] == pool0[vq]);
                }
            }
            assert(!out@.contains(val));
        }
        let ghost out0 = out@;
        out.push(val);
        proof {
            broadcast use vstd::seq_lib::lemma_seq_contains_after_push;

            assert forall|p: int, q: int|
                0 <= p < out@.len() && 0 <= q < out@.len() && p != q implies out@[p]
                != out@[q] by {
                if q == out@.len() - 1 {
                    assert(out0.contains(out0[p]));
                } else if p == out@.len() - 1 {
                    assert(out0.contains(out0[q]));
                }
            }
            assert forall|x: usize| out@.contains(x) implies !pool@.contains(x) by {
                if x != val {
                    assert(out0.contains(x));
                }
            }
        }
    }
    out
}

/// Generates the neighborhood's palette: `num_colors` distinct colors whose
/// channels sit on the generator's level grid. Random draws fill the
/// palette; if the draws keep hitting colors already taken, a deterministic
/// walk over the gray diagonal completes it, so the palette always reaches
/// its full size.
pub fn gen_nhood_colors(rng: &mut rand::rngs::ThreadRng, num_colors: usize) -> (colors: Vec<
    (u8, u8, u8),
>)
    requires
        num_colors <= 127,
    ensures
        colors@.len() == num_colors,
        colors@.no_duplicates(),
        forall|k: int|
            0 <= k < colors@.len() ==> palette_color_valid(
                #[trigger] colors@[k],
                num_colors as int,
            ),
{
    let mut color_options: Vec<(u8, u8, u8)> = Vec::new();
    let px_num: usize = if 42 >= num_colors * 2 {
        42
    } else {
        num_colors * 2
    };
    let px_interval: usize = 255 / px_num;
    proof {
        assert(px_num == px_num_of(num_colors as int));
        assert(px_interval == px_step_of(num_colors as int));
        assert(px_interval >= 1) by (nonlinear_arith)
            requires
                px_interval == 255int / (px_num as int),
                1 <= px_num <= 255,
        {}
        assert(px_interval * px_num <= 255) by (nonlinear_arith)
            requires
                px_interval == 255int / (px_num as int),
                1 <= px_num <= 254,
        {}
    }
    let mut fuel: usize = 16 * num_colors + 64;
    while color_options.len() < num_colors && fuel > 0
        invariant
            num_colors <= 127,
            px_num == px_num_of(num_colors as int),
            px_interval == px_step_of(num_colors as int),
            px_interval * px_num <= 255,
            px_interval >= 1,
            color_options@.len() <= num_colors,
            color_options@.no_duplicates(),
            forall|k: int|
                0 <= k < color_options@.len() ==> palette_color_valid(
                    #[trigger] color_options@[k],
                    num_colors as int,
                ),
        decreases fuel,
    {
        let ri = rand_below(rng, px_num - 2) + 1;
        let gi = rand_below(rng, px_num - 2) + 1;
        let bi = rand_below(rng, px_num - 2) + 1;
        proof {
            assert(ri * px_interval <= 255 && gi * px_interval <= 255 && bi * px_interval <= 255)
                by (nonlinear_arith)
                requires
                    px_interval * px_num <= 255,
                    1 <= ri <= px_num - 2,
                    1 <= gi <= px_num - 2,
                    1 <= bi <= px_num - 2,
            {}
        }
        let r = (ri * px_interval) as u8;
        let g = (gi * px_interval) as u8;
        let b = (bi * px_interval) as u8;
        let rgb = (r, g, b);
        let ghost before = color_options@;
        if !contains_rgb(&color_options, rgb) {
            color_options.push(rgb);
            proof {
                broadcast use vstd::seq_lib::lemma_seq_contains_after_push;

                assert(palette_channel_valid(r, num_colors as int)) by {
                    assert(r == channel_level(ri as int, num_colors as int));
                }
                assert(palette_channel_valid(g, num_colors as int)) by {
                    assert(g == channel_level(gi as int, num_colors as int));
                }
                assert(palette_channel_valid(b, num_colors as int)) by {
                    assert(b == channel_level(bi as int, num_colors as int));
                }
                assert forall|p: int, q: int|
                    0 <= p < color_options@.len() && 0 <= q < color_options@.len() && p
                        != q implies color_options@[p] != color_options@[q] by {
                    if q == color_options@.len() - 1 {
                        assert(before.contains(before[p]));
                    } else if p == color_options@.len() - 1 {
                        assert(before.contains(before[q]));
                    }
                }
            }
        }
        fuel = fuel - 1;
    }
    // deterministic completion along the gray diagonal
    if color_options.len() < num_colors {
        color_options = Vec::new();
        let mut i: usize = 1;
        while color_options.len() < num_colors
            invariant
                num_colors <= 127,
                px_num == px_num_of(num_colors as int),
                px_interval == px_step_of(num_colors as int),
                px_interval * px_num <= 255,
                px_interval >= 1,
                i == color_options@.len() + 1,
                color_options@.len() <= num_colors,
                forall|k: int|
                    0 <= k < color_options@.len() ==> #[trigger] color_options@[k] == (
                    ((k + 1) * px_interval as int) as u8,
                    ((k + 1) * px_interval as int) as u8,
                    ((k + 1) * px_interval as int) as u8,
                ),
            decreases num_colors - color_options@.len(),
        {
            proof {
                assert(i <= px_num - 2) by {
                    assert(num_colors <= px_num_of(num_colors as int) - 2);
                }
                assert(i * px_interval <= 255) by (nonlinear_arith)
                    requires
                        px_interval * px_num <= 255,
                        1 <= i <= px_num - 2,
                {}
            }
            let v = (i * px_interval) as u8;
            color_options.push((v, v, v));
            i = i + 1;
        }
        proof {
            // distinct levels give distinct grays
            assert forall|p: int, q: int|
                0 <= p < color_options@.len() && 0 <= q < color_options@.len() && p
                    != q implies color_options@[p] != color_options@[q] by {
                assert((p + 1) * px_interval != (q + 1) * px_interval) by (nonlinear_arith)
                    requires
                        p != q,
                        px_interval >= 1,
                {}
                assert((p + 1) * px_interval <= 255 && (q + 1) * px_interval <= 255)
                    by (nonlinear_arith)
                    requires
                        px_interval * px_num <= 255,
                        0 <= p < color_options@.len(),
                        0 <= q < color_options@.len(),
                        color_options@.len() <= px_num - 2,
                        px_interval >= 1,
                {}
            }
            assert forall|k: int|
                0 <= k < color_options@.len() implies palette_color_valid(
                #[trigger] color_options@[k],
                num_colors as int,
            ) by {
                assert((k + 1) * px_interval <= 255) by (nonlinear_arith)
                    requires
                        px_interval * px_num <= 255,
                        0 <= k < color_options@.len(),
                        color_options@.len() <= px_num - 2,
                        px_interval >= 1,
                {}
                assert(color_options@[k].0 == channel_level(k + 1, num_colors as int));
            }
        }
    }
    color_options
}

/// `t` is a road total the road pass can draw for a sub-grid with `n` rows
/// plus columns: a uniform pick between the two ratio bounds, or zero when
/// the range is empty (too small a grid for the ratios to fit a road).
pub open spec fn road_total_valid(n: int, t: int) -> bool {
    if road_total_low(n) < road_total_high(n) {
        road_total_low(n) <= t < road_total_high(n)
    } else {
        t == 0
    }
}

/// The palette size recommended after laying `t` roads: the unused part of
/// the road budget, but at least three.
pub open spec fn palette_size_for(n: int, t: int) -> int {
    if 3 >= road_total_high(n) - t {
        3
    } else {
        road_total_high(n) - t
    }
}

/// `h` is a horizontal share the road pass can draw for `t` roads in all:
/// a uniform pick between one (or half the total, when smaller) and seventy
/// percent of the total rounded up (or the whole total, when smaller); a
/// zero total leaves no horizontal share.
pub open spec fn horizontal_share_valid(t: int, h: int) -> bool {
    if t == 0 {
        h == 0
    } else {
        vstd::math::min(1, t / 2) <= h < vstd::math::min(t, (7 * t + 9) / 10)
    }
}

/// The rows and columns the road pass paints: a valid road total `t`, a
/// valid horizontal share `h`, `min(h, rows)` distinct row indices and
/// `min(t - h, cols)` distinct column indices, all inside the grid.
pub open spec fn road_layout(
    rows: int,
    cols: int,
    rset: Set<usize>,
    cset: Set<usize>,
    t: int,
    h: int,
) -> bool {
    &&& road_total_valid(rows + cols, t)
    &&& horizontal_share_valid(t, h)
    &&& 0 <= h <= t
    &&& rset.finite()
    &&& rset.len() == vstd::math::min(h, rows)
    &&& cset.finite()
    &&& cset.len() == vstd::math::min(t - h, cols)
    &&& forall|i: usize| #[trigger] rset.contains(i) ==> (i as int) < rows
    &&& forall|j: usize| #[trigger] cset.contains(j) ==> (j as int) < cols
}

/// What one run of the road pass does to a sub-grid: for some drawn road
/// total, split and index sets forming a valid layout, exactly the cells on
/// a chosen row or column become roads, every other cell is untouched, and
/// the recommended palette size is the unused road budget (at least three)
/// for that same total.
pub open spec fn roads_applied(v0: Seq<Seq<Building>>, v1: Seq<Seq<Building>>, nc: int) -> bool {
    exists|rset: Set<usize>, cset: Set<usize>, t: int, h: int|
        #![trigger road_layout(v0.len() as int, v0[0].len() as int, rset, cset, t, h)]
        {
            let rows = v0.len() as int;
            let cols = v0[0].len() as int;
            &&& road_layout(rows, cols, rset, cset, t, h)
            &&& nc == palette_size_for(rows + cols, t)
            &&& v1.len() == v0.len()
            &&& forall|i: int, j: int|
                0 <= i < rows && 0 <= j < cols ==> (#[trigger] v1[i][j]) == if rset.contains(
                    i as usize,
                ) || cset.contains(j as usize) {
                    road_building()
                } else {
                    v0[i][j]
                }
        }
}

/// Lays roads through the sub-grid: picks a road total between fifteen and
/// forty percent of `rows + cols`, splits it into a horizontal and a
/// vertical share, chooses that many distinct rows and columns (clamped to
/// the grid), and paints every cell on them as a road. Returns the
/// recommended palette size: the unused road budget, at least three.
#[verifier::rlimit(80)]
pub fn add_roads_to_neighborhood(nhood: &mut GroupInstance, rng: &mut rand::rngs::ThreadRng) -> (num_colors:
    usize)
    requires
        1 <= sub_view(old(nhood).sub_grid).len(),
        1 <= sub_width(old(nhood).sub_grid),
        sub_view(old(nhood).sub_grid).len() + sub_width(old(nhood).sub_grid) <= 300,
        rect(sub_view(old(nhood).sub_grid), sub_width(old(nhood).sub_grid)),
    ensures
        final(nhood).group == old(nhood).group,
        final(nhood).coord == old(nhood).coord,
        sub_view(final(nhood).sub_grid).len() == sub_view(old(nhood).sub_grid).len(),
        sub_width(final(nhood).sub_grid) == sub_width(old(nhood).sub_grid),
        rect(sub_view(final(nhood).sub_grid), sub_width(old(nhood).sub_grid)),
        3 <= num_colors <= 127,
        forall|i: int, j: int|
            0 <= i < sub_view(old(nhood).sub_grid).len() && 0 <= j < sub_width(
                old(nhood).sub_grid,
            ) ==> (#[trigger] sub_view(final(nhood).sub_grid)[i][j]) == sub_view(
                old(nhood).sub_grid,
            )[i][j] || sub_view(final(nhood).sub_grid)[i][j] == road_building(),
        roads_applied(
            sub_view(old(nhood).sub_grid),
            sub_view(final(nhood).sub_grid),
            num_colors as int,
        ),
        road_total_low(
            sub_view(old(nhood).sub_grid).len() as int + sub_width(old(nhood).sub_grid),
        ) >= road_total_high(
            sub_view(old(nhood).sub_grid).len() as int + sub_width(old(nhood).sub_grid),
        ) ==> sub_view(final(nhood).sub_grid) == sub_view(old(nhood).sub_grid),
{
    let rows = sub_rows(&nhood.sub_grid);
    let cols = sub_cols(&nhood.sub_grid);
    let ghost v0 = sub_view(nhood.sub_grid);
    let n = rows + cols;

    // the road budget: a uniform draw between the two ratio bounds; an
    // empty range (a tiny grid) fits no road at all
    let num_roads_low_bound = (3 * n + 19) / 20;
    let num_roads_upp_bound = (2 * n + 4) / 5;
    let num_roads_total = if num_roads_low_bound < num_roads_upp_bound {
        num_roads_low_bound + rand_below(rng, num_roads_upp_bound - num_roads_low_bound)
    } else {
        0
    };
    proof {
        assert(road_total_valid(n as int, num_roads_total as int));
    }

    // fewer roads leave room for more palette variety
    let num_colors = if num_roads_upp_bound - num_roads_total <= 3 {
        3
    } else {
        num_roads_upp_bound - num_roads_total
    };

    // the horizontal share of the budget; the rest runs vertically
    let share_low = if num_roads_total / 2 >= 1 {
        1
    } else {
        num_roads_total / 2
    };
    let share_cap = (7 * num_roads_total + 9) / 10;
    let share_high = if num_roads_total <= share_cap {
        num_roads_total
    } else {
        share_cap
    };
    let num_roads_horizontal = if share_low < share_high {
        share_low + rand_below(rng, share_high - share_low)
    } else {
        share_low
    };
    let num_roads_vertical = num_roads_total - num_roads_horizontal;

    let hor_count = if num_roads_horizontal <= rows {
        num_roads_horizontal
    } else {
        rows
    };
    let ver_count = if num_roads_vertical <= cols {
        num_roads_vertical
    } else {
        cols
    };
    let roads_hor_idxs = sample_distinct(rng, rows, hor_count);
    let roads_ver_idxs = sample_distinct(rng, cols, ver_count);

    let road_color: (u8, u8, u8) = (55, 55, 55);

    let mut a: usize = 0;
    while a < roads_hor_idxs.len()
        invariant
            a <= roads_hor_idxs@.len(),
            rows == sub_view(old(nhood).sub_grid).len(),
            cols == sub_width(old(nhood).sub_grid),
            v0 == sub_view(old(nhood).sub_grid),
            road_color == (55u8, 55u8, 55u8),
            nhood.group == old(nhood).group,
            nhood.coord == old(nhood).coord,
            sub_view(nhood.sub_grid).len() == rows,
            sub_width(nhood.sub_grid) == cols,
            rect(sub_view(nhood.sub_grid), cols as nat),
            forall|j: int| 0 <= j < roads_hor_idxs@.len() ==> roads_hor_idxs@[j] < rows,
            forall|i: int, j: int|
                0 <= i < rows && 0 <= j < cols ==> (#[trigger] sub_view(nhood.sub_grid)[i][j])
                    == if roads_hor_idxs@.take(a as int).contains(i as usize) {
                    road_building()
                } else {
                    v0[i][j]
                },
        decreases roads_hor_idxs@.len() - a,
    {
        let row_idx = roads_hor_idxs[a];
        let mut col_idx: usize = 0;
        while col_idx < cols
            invariant
                a < roads_hor_idxs@.len(),
                row_idx == roads_hor_idxs@[a as int],
                rows == sub_view(old(nhood).sub_grid).len(),
                cols == sub_width(old(nhood).sub_grid),
                v0 == sub_view(old(nhood).sub_grid),
                road_color == (55u8, 55u8, 55u8),
                col_idx <= cols,
                row_idx < rows,
                nhood.group == old(nhood).group,
                nhood.coord == old(nhood).coord,
                sub_view(nhood.sub_grid).len() == rows,
                sub_width(nhood.sub_grid) == cols,
                rect(sub_view(nhood.sub_grid), cols as nat),
                forall|i: int, j: int|
                    0 <= i < rows && 0 <= j < cols ==> (#[trigger] sub_view(nhood.sub_grid)[i][j])
                        == if roads_hor_idxs@.take(a as int).contains(i as usize) || (i
                        == row_idx && j < col_idx) {
                        road_building()
                    } else {
                        v0[i][j]
                    },
            decreases cols - col_idx,
        {
            let ghost before = sub_view(nhood.sub_grid);
            sub_set(
                &mut nhood.sub_grid,
                row_idx,
                col_idx,
                Building { build_type: BuildingType::Road, rgb_color: road_color },
            );
            proof {
                assert forall|i: int, j: int|
                    0 <= i < rows && 0 <= j < cols implies (#[trigger] sub_view(
                    nhood.sub_grid,
                )[i][j]) == if roads_hor_idxs@.take(a as int).contains(i as usize) || (i == row_idx
                    && j < col_idx + 1) {
                    road_building()
                } else {
                    v0[i][j]
                } by {
                    if i != row_idx {
                        assert(sub_view(nhood.sub_grid)[i] == before[i]);
                    } else if j != col_idx {
                        assert(sub_view(nhood.sub_grid)[i][j] == before[i][j]);
                    } else {
                        assert(sub_view(nhood.sub_grid)[i][j] == road_building());
                    }
                }
            }
            col_idx = col_idx + 1;
        }
        proof {
            broadcast use vstd::seq_lib::lemma_seq_contains_after_push;

            assert(roads_hor_idxs@.take(a + 1) =~= roads_hor_idxs@.take(a as int).push(
                roads_hor_idxs@[a as int],
            ));
            assert forall|i: int, j: int|
                0 <= i < rows && 0 <= j < cols implies (#[trigger] sub_view(
                nhood.sub_grid,
            )[i][j]) == if roads_hor_idxs@.take(a + 1).contains(i as usize) {
                road_building()
            } else {
                v0[i][j]
            } by {
                assert(roads_hor_idxs@.take(a + 1).contains(i as usize)
                    <==> roads_hor_idxs@.take(a as int).contains(i as usize) || i as usize
                    == row_idx);
            }
        }
        a = a + 1;
    }

    proof {
        assert(roads_hor_idxs@.take(roads_hor_idxs@.len() as int) =~= roads_hor_idxs@);
    }
    let mut b: usize = 0;
    while b < roads_ver_idxs.len()
        invariant
            b <= roads_ver_idxs@.len(),
            rows == sub_view(old(nhood).sub_grid).len(),
            cols == sub_width(old(nhood).sub_grid),
            v0 == sub_view(old(nhood).sub_grid),
            road_color == (55u8, 55u8, 55u8),
            nhood.group == old(nhood).group,
            nhood.coord == old(nhood).coord,
            sub_view(nhood.sub_grid).len() == rows,
            sub_width(nhood.sub_grid) == cols,
            rect(sub_view(nhood.sub_grid), cols as nat),
            forall|j: int| 0 <= j < roads_ver_idxs@.len() ==> roads_ver_idxs@[j] < cols,
            forall|i: int, j: int|
                0 <= i < rows && 0 <= j < cols ==> (#[trigger] sub_view(nhood.sub_grid)[i][j])
                    == if roads_hor_idxs@.contains(i as usize) || roads_ver_idxs@.take(
                    b as int,
                ).contains(j as usize) {
                    road_building()
                } else {
                    v0[i][j]
                },
        decreases roads_ver_idxs@.len() - b,
    {
        let col_idx = roads_ver_idxs[b];
        let mut row_idx: usize = 0;
        while row_idx < rows
            invariant
                b < roads_ver_idxs@.len(),
                col_idx == roads_ver_idxs@[b as int],
                rows == sub_view(old(nhood).sub_grid).len(),
                cols == sub_width(old(nhood).sub_grid),
                v0 == sub_view(old(nhood).sub_grid),
                road_color == (55u8, 55u8, 55u8),
                row_idx <= rows,
                col_idx < cols,
                nhood.group == old(nhood).group,
                nhood.coord == old(nhood).coord,
                sub_view(nhood.sub_grid).len() == rows,
                sub_width(nhood.sub_grid) == cols,
                rect(sub_view(nhood.sub_grid), cols as nat),
                forall|i: int, j: int|
                    0 <= i < rows && 0 <= j < cols ==> (#[trigger] sub_view(nhood.sub_grid)[i][j])
                        == if roads_hor_idxs@.contains(i as usize) || roads_ver_idxs@.take(
                        b as int,
                    ).contains(j as usize) || (j == col_idx && i < row_idx) {
                        road_building()
                    } else {
                        v0[i][j]
                    },
            decreases rows - row_idx,
        {
            let ghost before = sub_view(nhood.sub_grid);
            sub_set(
                &mut nhood.sub_grid,
                row_idx,
                col_idx,
                Building { build_type: BuildingType::Road, rgb_color: road_color },
            );
            proof {
                assert forall|i: int, j: int|
                    0 <= i < rows && 0 <= j < cols implies (#[trigger] sub_view(
                    nhood.sub_grid,
                )[i][j]) == if roads_hor_idxs@.contains(i as usize) || roads_ver_idxs@.take(
                    b as int,
                ).contains(j as usize) || (j == col_idx && i < row_idx + 1) {
                    road_building()
                } else {
                    v0[i][j]
                } by {
                    if i != row_idx {
                        assert(sub_view(nhood.sub_grid)[i] == before[i]);
                    } else if j != col_idx {
                        assert(sub_view(nhood.sub_grid)[i][j] == before[i][j]);
                    } else {
                        assert(sub_view(nhood.sub_grid)[i][j] == road_building());
                    }
                }
            }
            row_idx = row_idx + 1;
        }
        proof {
            broadcast use vstd::seq_lib::lemma_seq_contains_after_push;

            assert(roads_ver_idxs@.take(b + 1) =~= roads_ver_idxs@.take(b as int).push(
                roads_ver_idxs@[b as int],
            ));
            assert forall|i: int, j: int|
                0 <= i < rows && 0 <= j < cols implies (#[trigger] sub_view(
                nhood.sub_grid,
            )[i][j]) == if roads_hor_idxs@.contains(i as usize) || roads_ver_idxs@.take(
                b + 1,
            ).contains(j as usize) {
                road_building()
            } else {
                v0[i][j]
            } by {
                assert(roads_ver_idxs@.take(b + 1).contains(j as usize)
                    <==> roads_ver_idxs@.take(b as int).contains(j as usize) || j as usize
                    == col_idx);
            }
        }
        b = b + 1;
    }

    proof {
        assert(roads_ver_idxs@.take(roads_ver_idxs@.len() as int) =~= roads_ver_idxs@);
        let v1 = sub_view(nhood.sub_grid);
        let t = num_roads_total as int;
        let h = num_roads_horizontal as int;
        // the drawn split lies in its share range
        assert(horizontal_share_valid(t, h)) by {
            if num_roads_total > 0 {
                assert(share_low < share_high);
                assert(vstd::math::min(1, t / 2) == share_low as int);
                assert(vstd::math::min(t, (7 * t + 9) / 10) == share_high as int);
            }
        }
        // the chosen index sets form a valid layout
        let rset = roads_hor_idxs@.to_set();
        let cset = roads_ver_idxs@.to_set();
        roads_hor_idxs@.unique_seq_to_set();
        roads_ver_idxs@.unique_seq_to_set();
        assert(road_layout(rows as int, cols as int, rset, cset, t, h)) by {
            assert(rset.len() == vstd::math::min(h, rows as int));
            assert(cset.len() == vstd::math::min(t - h, cols as int));
            assert forall|i: usize| #[trigger] rset.contains(i) implies (i as int) < rows by {
                let k = choose|k: int|
                    0 <= k < roads_hor_idxs@.len() && roads_hor_idxs@[k] == i;
            }
            assert forall|j: usize| #[trigger] cset.contains(j) implies (j as int) < cols by {
                let k = choose|k: int|
                    0 <= k < roads_ver_idxs@.len() && roads_ver_idxs@[k] == j;
            }
        }
        // exactly the cells on a chosen row or column became roads
        assert(v0[0].len() == cols);
        assert(roads_applied(v0, v1, num_colors as int)) by {
            assert(road_layout(v0.len() as int, v0[0].len() as int, rset, cset, t, h));
            assert(num_colors == palette_size_for(v0.len() as int + v0[0].len() as int, t));
            assert forall|i: int, j: int|
                0 <= i < rows && 0 <= j < cols implies (#[trigger] v1[i][j]) == if rset.contains(
                i as usize,
            ) || cset.contains(j as usize) {
                road_building()
            } else {
                v0[i][j]
            } by {
                assert(rset.contains(i as usize) <==> roads_hor_idxs@.contains(i as usize));
                assert(cset.contains(j as usize) <==> roads_ver_idxs@.contains(j as usize));
            }
        }
        // a grid too small for the ratios gets no roads at all
        if road_total_low(n as int) >= road_total_high(n as int) {
            assert(num_roads_total == 0);
            assert(roads_hor_idxs@.len() == 0 && roads_ver_idxs@.len() == 0);
            assert forall|i: int| 0 <= i < rows implies v1[i] == v0[i] by {
                assert forall|j: int| 0 <= j < cols implies v1[i][j] == v0[i][j] by {
                    assert(!roads_hor_idxs@.contains(i as usize));
                    assert(!roads_ver_idxs@.contains(j as usize));
                }
                assert(v1[i] =~= v0[i]);
            }
            assert(v1 =~= v0);
        }
        assert(road_total_valid(n as int, num_roads_total as int) && num_colors
            == palette_size_for(n as int, num_roads_total as int));
    }
    num_colors
}

/// Maps one uniform draw from `[0, 10)` to a building type: one part road,
/// five parts residence, three parts shop, one part left unclassified.
pub fn build_type_from_draw(draw: usize) -> (t: BuildingType)
    requires
        draw < 10,
    ensures
        draw == 0 ==> t == BuildingType::Road,
        1 <= draw <= 5 ==> t == BuildingType::Residence,
        6 <= draw <= 8 ==> t == BuildingType::Shop,
        draw == 9 ==> t == BuildingType::Empty,
{
    if draw == 0 {
        BuildingType::Road
    } else if draw <= 5 {
        BuildingType::Residence
    } else if draw <= 8 {
        BuildingType::Shop
    } else {
        BuildingType::Empty
    }
}

/// Draws a building type with the fixed ratios and a color uniformly from
/// the palette.
pub fn gen_build_type_color(rng: &mut rand::rngs::ThreadRng, colors: &Vec<(u8, u8, u8)>) -> (r: (
    BuildingType,
    (u8, u8, u8),
))
    requires
        colors@.len() >= 1,
    ensures
        colors@.contains(r.1),
{
    let draw = rand_below(rng, 10);
    let build_type = build_type_from_draw(draw);
    let ci = rand_below(rng, colors.len());
    let color = colors[ci];
    proof {
        assert(colors@.contains(colors@[ci as int]));
    }
    (build_type, color)
}

/// True when the row-major classification scan has already passed the cell
/// at row `i`, column `j`.
spec fn visited(i: int, j: int, r: int, c: int, cols: int) -> bool {
    (i < r && j < cols) || (i == r && j < c)
}

/// The classification pass: every cell not already marked as a road gets a
/// building type drawn with the fixed ratios and a color drawn from the
/// palette. Road cells are skipped and never reclassified.
pub fn classify_buildings(
    nhood: &mut GroupInstance,
    rng: &mut rand::rngs::ThreadRng,
    colors: &Vec<(u8, u8, u8)>,
)
    requires
        colors@.len() >= 1,
        rect(sub_view(old(nhood).sub_grid), sub_width(old(nhood).sub_grid)),
    ensures
        final(nhood).group == old(nhood).group,
        final(nhood).coord == old(nhood).coord,
        sub_view(final(nhood).sub_grid).len() == sub_view(old(nhood).sub_grid).len(),
        sub_width(final(nhood).sub_grid) == sub_width(old(nhood).sub_grid),
        rect(sub_view(final(nhood).sub_grid), sub_width(old(nhood).sub_grid)),
        forall|i: int, j: int|
            0 <= i < sub_view(old(nhood).sub_grid).len() && 0 <= j < sub_width(
                old(nhood).sub_grid,
            ) && sub_view(old(nhood).sub_grid)[i][j].build_type == BuildingType::Road ==> (
            #[trigger] sub_view(final(nhood).sub_grid)[i][j]) == sub_view(
                old(nhood).sub_grid,
            )[i][j],
        forall|i: int, j: int|
            0 <= i < sub_view(old(nhood).sub_grid).len() && 0 <= j < sub_width(
                old(nhood).sub_grid,
            ) && sub_view(old(nhood).sub_grid)[i][j].build_type != BuildingType::Road
                ==> colors@.contains(
                (#[trigger] sub_view(final(nhood).sub_grid)[i][j]).rgb_color,
            ),
{
    let rows = sub_rows(&nhood.sub_grid);
    let cols = sub_cols(&nhood.sub_grid);
    let ghost v0 = sub_view(nhood.sub_grid);
    let mut row: usize = 0;
    while row < rows
        invariant
            row <= rows,
            colors@.len() >= 1,
            rows == sub_view(old(nhood).sub_grid).len(),
            cols == sub_width(old(nhood).sub_grid),
            v0 == sub_view(old(nhood).sub_grid),
            nhood.group == old(nhood).group,
            nhood.coord == old(nhood).coord,
            sub_view(nhood.sub_grid).len() == rows,
            sub_width(nhood.sub_grid) == cols,
            rect(sub_view(nhood.sub_grid), cols as nat),
            forall|i: int, j: int|
                0 <= i < rows && 0 <= j < cols && !visited(i, j, row as int, 0, cols as int)
                    ==> (#[trigger] sub_view(nhood.sub_grid)[i][j]) == v0[i][j],
            forall|i: int, j: int|
                0 <= i < rows && 0 <= j < cols && visited(i, j, row as int, 0, cols as int)
                    && v0[i][j].build_type == BuildingType::Road ==> (#[trigger] sub_view(
                    nhood.sub_grid,
                )[i][j]) == v0[i][j],
            forall|i: int, j: int|
                0 <= i < rows && 0 <= j < cols && visited(i, j, row as int, 0, cols as int)
                    && v0[i][j].build_type != BuildingType::Road ==> colors@.contains(
                    (#[trigger] sub_view(nhood.sub_grid)[i][j]).rgb_color,
                ),
        decreases rows - row,
    {
        let mut col: usize = 0;
        while col < cols
            invariant
                row < rows,
                col <= cols,
                colors@.len() >= 1,
                rows == sub_view(old(nhood).sub_grid).len(),
                cols == sub_width(old(nhood).sub_grid),
                v0 == sub_view(old(nhood).sub_grid),
                nhood.group == old(nhood).group,
                nhood.coord == old(nhood).coord,
                sub_view(nhood.sub_grid).len() == rows,
                sub_width(nhood.sub_grid) == cols,
                rect(sub_view(nhood.sub_grid), cols as nat),
                forall|i: int, j: int|
                    0 <= i < rows && 0 <= j < cols && !visited(
                        i,
                        j,
                        row as int,
                        col as int,
                        cols as int,
                    ) ==> (#[trigger] sub_view(nhood.sub_grid)[i][j]) == v0[i][j],
                forall|i: int, j: int|
                    0 <= i < rows && 0 <= j < cols && visited(
                        i,
                        j,
                        row as int,
                        col as int,
                        cols as int,
                    ) && v0[i][j].build_type == BuildingType::Road ==> (#[trigger] sub_view(
                        nhood.sub_grid,
                    )[i][j]) == v0[i][j],
                forall|i: int, j: int|
                    0 <= i < rows && 0 <= j < cols && visited(
                        i,
                        j,
                        row as int,
                        col as int,
                        cols as int,
                    ) && v0[i][j].build_type != BuildingType::Road ==> colors@.contains(
                        (#[trigger] sub_view(nhood.sub_grid)[i][j]).rgb_color,
                    ),
            decreases cols - col,
        {
            let this_build = sub_get(&nhood.sub_grid, row, col);
            let ghost before = sub_view(nhood.sub_grid);
            if !(this_build.build_type == BuildingType::Road) {
                let picked = gen_build_type_color(rng, colors);
                sub_set(
                    &mut nhood.sub_grid,
                    row,
                    col,
                    Building { build_type: picked.0, rgb_color: picked.1 },
                );
            }
            proof {
                assert forall|i: int, j: int|
                    0 <= i < rows && 0 <= j < cols && i == row as int && j
                        != col as int implies (#[trigger] sub_view(nhood.sub_grid)[i][j])
                    == before[i][j] by {}
                assert forall|i: int, j: int|
                    0 <= i < rows && 0 <= j < cols && i != row as int implies (
                #[trigger] sub_view(nhood.sub_grid)[i][j]) == before[i][j] by {
                    assert(sub_view(nhood.sub_grid)[i] == before[i]);
                }
            }
            col = col + 1;
        }
        row = row + 1;
    }
}

/// What one full synthesis run does to a sub-grid: for some valid road
/// layout, the cells on a chosen row or column are roads; every other cell
/// keeps a road marking it already carried or is classified with a color
/// from the palette of the recommended size for that layout's road total.
pub open spec fn neighborhood_synthesized(v0: Seq<Seq<Building>>, v2: Seq<Seq<Building>>) -> bool {
    exists|rset: Set<usize>, cset: Set<usize>, t: int, h: int|
        #![trigger road_layout(v0.len() as int, v0[0].len() as int, rset, cset, t, h)]
        {
            let rows = v0.len() as int;
            let cols = v0[0].len() as int;
            &&& road_layout(rows, cols, rset, cset, t, h)
            &&& v2.len() == v0.len()
            &&& forall|i: int, j: int|
                0 <= i < rows && 0 <= j < cols ==> {
                    let cell = #[trigger] v2[i][j];
                    if rset.contains(i as usize) || cset.contains(j as usize) {
                        cell == road_building()
                    } else if v0[i][j].build_type == BuildingType::Road {
                        cell == v0[i][j]
                    } else {
                        palette_color_valid(cell.rgb_color, palette_size_for(rows + cols, t))
                    }
                }
        }
}

/// Fills one claimed cell's sub-grid: lays roads, derives the palette, and
/// classifies every non-road cell. On return, for some drawn road layout,
/// the cells on a chosen row or column are roads; every other cell keeps a
/// road marking it already carried or holds a color from the palette of the
/// recommended size. A sub-grid too small for the ratios gets no roads at
/// all: every cell not already a road is then classified from the
/// recommended palette for a roadless budget.
pub fn generate_neighborhood(nhood: &mut GroupInstance, rng: &mut rand::rngs::ThreadRng)
    requires
        1 <= sub_view(old(nhood).sub_grid).len(),
        1 <= sub_width(old(nhood).sub_grid),
        sub_view(old(nhood).sub_grid).len() + sub_width(old(nhood).sub_grid) <= 300,
        rect(sub_view(old(nhood).sub_grid), sub_width(old(nhood).sub_grid)),
    ensures
        final(nhood).group == old(nhood).group,
        final(nhood).coord == old(nhood).coord,
        sub_view(final(nhood).sub_grid).len() == sub_view(old(nhood).sub_grid).len(),
        sub_width(final(nhood).sub_grid) == sub_width(old(nhood).sub_grid),
        rect(sub_view(final(nhood).sub_grid), sub_width(old(nhood).sub_grid)),
        neighborhood_synthesized(sub_view(old(nhood).sub_grid), sub_view(final(nhood).sub_grid)),
        road_total_low(
            sub_view(old(nhood).sub_grid).len() as int + sub_width(old(nhood).sub_grid),
        ) >= road_total_high(
            sub_view(old(nhood).sub_grid).len() as int + sub_width(old(nhood).sub_grid),
        ) ==> forall|i: int, j: int|
            0 <= i < sub_view(old(nhood).sub_grid).len() && 0 <= j < sub_width(
                old(nhood).sub_grid,
            ) ==> {
                let cell = #[trigger] sub_view(final(nhood).sub_grid)[i][j];
                if sub_view(old(nhood).sub_grid)[i][j].build_type == BuildingType::Road {
                    cell == sub_view(old(nhood).sub_grid)[i][j]
                } else {
                    palette_color_valid(
                        cell.rgb_color,
                        palette_size_for(
                            sub_view(old(nhood).sub_grid).len() as int + sub_width(
                                old(nhood).sub_grid,
                            ),
                            0,
                        ),
                    )
                }
            },
{
    let num_colors = add_roads_to_neighborhood(nhood, rng);
    let color_options = gen_nhood_colors(rng, num_colors);
    let ghost v_roads = sub_view(nhood.sub_grid);
    classify_buildings(nhood, rng, &color_options);
    proof {
        let v0 = sub_view(old(nhood).sub_grid);
        let v2 = sub_view(nhood.sub_grid);
        let rows = v0.len() as int;
        let cols = sub_width(old(nhood).sub_grid) as int;
        let n = rows + cols;
        let (rset, cset, t, h) = choose|rset: Set<usize>, cset: Set<usize>, t: int, h: int|
            #![trigger road_layout(v0.len() as int, v0[0].len() as int, rset, cset, t, h)]
            {
                &&& road_layout(v0.len() as int, v0[0].len() as int, rset, cset, t, h)
                &&& num_colors == palette_size_for(v0.len() as int + v0[0].len() as int, t)
                &&& v_roads.len() == v0.len()
                &&& forall|i: int, j: int|
                    0 <= i < v0.len() && 0 <= j < v0[0].len() ==> (#[trigger] v_roads[i][j])
                        == if rset.contains(i as usize) || cset.contains(j as usize) {
                        road_building()
                    } else {
                        v0[i][j]
                    }
            };
        assert(v0[0].len() == cols);
        // per cell: a chosen road, a kept prior road, or a classified building
        assert forall|i: int, j: int|
            0 <= i < rows && 0 <= j < cols implies {
            let cell = #[trigger] v2[i][j];
            if rset.contains(i as usize) || cset.contains(j as usize) {
                cell == road_building()
            } else if v0[i][j].build_type == BuildingType::Road {
                cell == v0[i][j]
            } else {
                palette_color_valid(cell.rgb_color, palette_size_for(rows + cols, t))
            }
        } by {
            if rset.contains(i as usize) || cset.contains(j as usize) {
                assert(v_roads[i][j] == road_building());
                assert(v2[i][j] == v_roads[i][j]);
            } else if v0[i][j].build_type == BuildingType::Road {
                assert(v_roads[i][j] == v0[i][j]);
                assert(v2[i][j] == v_roads[i][j]);
            } else {
                assert(v_roads[i][j] == v0[i][j]);
                assert(color_options@.contains(v2[i][j].rgb_color));
                let k = choose|k: int|
                    0 <= k < color_options@.len() && color_options@[k] == v2[i][j].rgb_color;
                assert(palette_color_valid(color_options@[k], num_colors as int));
            }
        }
        assert(neighborhood_synthesized(v0, v2));
        // a sub-grid too small for the ratios holds no chosen roads at all
        if road_total_low(n) >= road_total_high(n) {
            assert(t == 0);
            assert(rset.len() == 0 && cset.len() == 0);
            assert forall|i: int, j: int|
                0 <= i < rows && 0 <= j < cols implies {
                let cell = #[trigger] v2[i][j];
                if v0[i][j].build_type == BuildingType::Road {
                    cell == v0[i][j]
                } else {
                    palette_color_valid(cell.rgb_color, palette_size_for(n, 0))
                }
            } by {
                if rset.contains(i as usize) {
                    rset.lemma_len0_is_empty();
                    assert(false);
                }
                if cset.contains(j as usize) {
                    cset.lemma_len0_is_empty();
                    assert(false);
                }
            }
        }
    }
}

/// Every cell's private sub-grid is fit for synthesis: non-degenerate,
/// small enough for the palette arithmetic, and rectangular.
pub open spec fn subgrids_ready(v: Seq<Seq<GroupInstance>>, cols: nat) -> bool {
    forall|i: int, j: int|
        0 <= i < v.len() && 0 <= j < cols ==> {
            let sg = (#[trigger] v[i][j]).sub_grid;
            &&& 1 <= sub_view(sg).len()
            &&& 1 <= sub_width(sg)
            &&& sub_view(sg).len() + sub_width(sg) <= 300
            &&& rect(sub_view(sg), sub_width(sg))
        }
}

/// Synthesizes the neighborhood of every cell of the finished master grid,
/// row by row. Ownership is untouched: each cell keeps its owner copy and
/// its address; every cell's private sub-grid receives one full synthesis
/// run — roads on whole rows and columns, the rest classified from that
/// cell's palette.
pub fn generate_all_neighborhoods(
    city_grid: &mut grid::Grid<GroupInstance>,
    rng: &mut rand::rngs::ThreadRng,
)
    requires
        rect(master_view(*old(city_grid)), master_width(*old(city_grid))),
        subgrids_ready(master_view(*old(city_grid)), master_width(*old(city_grid))),
    ensures
        master_view(*final(city_grid)).len() == master_view(*old(city_grid)).len(),
        master_width(*final(city_grid)) == master_width(*old(city_grid)),
        rect(master_view(*final(city_grid)), master_width(*old(city_grid))),
        forall|i: int, j: int|
            0 <= i < master_view(*old(city_grid)).len() && 0 <= j < master_width(
                *old(city_grid),
            ) ==> (#[trigger] master_view(*final(city_grid))[i][j]).group == master_view(
                *old(city_grid),
            )[i][j].group && master_view(*final(city_grid))[i][j].coord == master_view(
                *old(city_grid),
            )[i][j].coord,
        forall|i: int, j: int|
            0 <= i < master_view(*old(city_grid)).len() && 0 <= j < master_width(
                *old(city_grid),
            ) ==> {
                let sg0 = master_view(*old(city_grid))[i][j].sub_grid;
                let sg1 = (#[trigger] master_view(*final(city_grid))[i][j]).sub_grid;
                &&& sub_view(sg1).len() == sub_view(sg0).len()
                &&& sub_width(sg1) == sub_width(sg0)
                &&& rect(sub_view(sg1), sub_width(sg0))
                &&& neighborhood_synthesized(sub_view(sg0), sub_view(sg1))
            },
{
    let rows = master_rows(city_grid);
    let cols = master_cols(city_grid);
    let ghost v0 = master_view(*city_grid);
    let mut row: usize = 0;
    while row < rows
        invariant
            row <= rows,
            rows == v0.len(),
            cols == master_width(*old(city_grid)),
            v0 == master_view(*old(city_grid)),
            rect(v0, cols as nat),
            subgrids_ready(v0, cols as nat),
            master_view(*city_grid).len() == rows,
            master_width(*city_grid) == cols,
            rect(master_view(*city_grid), cols as nat),
            subgrids_ready(master_view(*city_grid), cols as nat),
            forall|i: int, j: int|
                0 <= i < rows && 0 <= j < cols && !visited(i, j, row as int, 0, cols as int)
                    ==> (#[trigger] master_view(*city_grid)[i][j]) == v0[i][j],
            forall|i: int, j: int|
                0 <= i < rows && 0 <= j < cols && visited(i, j, row as int, 0, cols as int)
                    ==> {
                    let sg0 = v0[i][j].sub_grid;
                    let sg1 = (#[trigger] master_view(*city_grid)[i][j]).sub_grid;
                    &&& master_view(*city_grid)[i][j].group == v0[i][j].group
                    &&& master_view(*city_grid)[i][j].coord == v0[i][j].coord
                    &&& sub_view(sg1).len() == sub_view(sg0).len()
                    &&& sub_width(sg1) == sub_width(sg0)
                    &&& rect(sub_view(sg1), sub_width(sg0))
                    &&& neighborhood_synthesized(sub_view(sg0), sub_view(sg1))
                },
        decreases rows - row,
    {
        let mut col: usize = 0;
        while col < cols
            invariant
                row < rows,
                col <= cols,
                rows == v0.len(),
                cols == master_width(*old(city_grid)),
                v0 == master_view(*old(city_grid)),
                rect(v0, cols as nat),
                subgrids_ready(v0, cols as nat),
                master_view(*city_grid).len() == rows,
                master_width(*city_grid) == cols,
                rect(master_view(*city_grid), cols as nat),
                subgrids_ready(master_view(*city_grid), cols as nat),
                forall|i: int, j: int|
                    0 <= i < rows && 0 <= j < cols && !visited(i, j, row as int, col as int, cols as int)
                        ==> (#[trigger] master_view(*city_grid)[i][j]) == v0[i][j],
                forall|i: int, j: int|
                    0 <= i < rows && 0 <= j < cols && visited(i, j, row as int, col as int, cols as int)
                        ==> {
                        let sg0 = v0[i][j].sub_grid;
                        let sg1 = (#[trigger] master_view(*city_grid)[i][j]).sub_grid;
                        &&& master_view(*city_grid)[i][j].group == v0[i][j].group
                        &&& master_view(*city_grid)[i][j].coord == v0[i][j].coord
                        &&& sub_view(sg1).len() == sub_view(sg0).len()
                        &&& sub_width(sg1) == sub_width(sg0)
                        &&& rect(sub_view(sg1), sub_width(sg0))
                        &&& neighborhood_synthesized(sub_view(sg0), sub_view(sg1))
                    },
            decreases cols - col,
        {
            let ghost before = master_view(*city_grid);
            let this_instance = master_get_mut(city_grid, row, col);
            generate_neighborhood(this_instance, rng);
            proof {
                assert(before[row as int][col as int] == v0[row as int][col as int]);
                assert forall|i: int, j: int|
                    0 <= i < rows && 0 <= j < cols && (i != row || j != col) implies (
                #[trigger] master_view(*city_grid)[i][j]) == before[i][j] && master_view(
                    *city_grid,
                )[i].len() == cols by {
                    if i != row {
                        assert(master_view(*city_grid)[i] == before[i]);
                    }
                }
                assert(master_view(*city_grid)[row as int].len() == cols);
            }
            col = col + 1;
        }
        row = row + 1;
    }
}

} // verus!
