use city_grid::engine::create_empty_grid;
use city_grid::engine::generate;
use city_grid::engine::prime_grid_with_groups;
use city_grid::engine::weighted_coord_rng_districts;
use city_grid::grouping::Coord;
use city_grid::grouping::Grouping;
use std::collections::HashSet;

#[test]
fn coord_new_fields() {
    let c = Coord::new(4, 9);
    assert_eq!(c.row, 4);
    assert_eq!(c.col, 9);
}

#[test]
fn coord_to_string_exact() {
    let c = Coord::new(3, 12);
    assert_eq!(c.to_string(), "row: 3, col: 12");
    let origin = Coord::new(0, 0);
    assert_eq!(origin.to_string(), "row: 0, col: 0");
}

#[test]
fn grouping_new_starts_empty() {
    let g = Grouping::new("harbor".to_string());
    assert_eq!(g.name, "harbor");
    assert!(g.locations.is_empty());
    assert_eq!(g.rgb_color, (0, 0, 0));
}

#[test]
fn grouping_default_placeholder_name() {
    let g = Grouping::default();
    assert_eq!(g.name, "empty");
    assert!(g.locations.is_empty());
}

#[test]
fn grouping_with_color_sets_and_copies() {
    let mut g = Grouping::new("slum".to_string());
    let copy = g.with_color((222, 42, 195));
    assert_eq!(g.rgb_color, (222, 42, 195));
    assert_eq!(copy.rgb_color, (222, 42, 195));
    assert_eq!(copy.name, "slum");
}

#[test]
fn grouping_to_string_exact() {
    let mut g = Grouping::new("slum".to_string());
    g.locations.push(Coord::new(1, 2));
    assert_eq!(g.to_string(), "Group Printout:\nName: slum\nrow: 1, col: 2\n");
}

#[test]
fn adjacent_candidates_orthogonal() {
    let mut g = Grouping::new("a".to_string());
    g.locations.push(Coord::new(0, 0));
    g.locations.push(Coord::new(1, 1));
    let adj = g.get_adjacent_coords(4, 4, false);
    let expected = vec![Coord::new(0, 1), Coord::new(1, 0), Coord::new(1, 2), Coord::new(2, 1)];
    assert_eq!(adj, expected);
    // no duplicates, nothing out of bounds, nothing already claimed
    let mut seen = HashSet::new();
    for c in &adj {
        assert!(c.row <= 4 && c.col <= 4);
        assert!(!g.locations.contains(c));
        assert!(seen.insert((c.row, c.col)));
    }
}

#[test]
fn adjacent_candidates_diagonal() {
    let mut g = Grouping::new("a".to_string());
    g.locations.push(Coord::new(1, 1));
    let adj = g.get_adjacent_coords(2, 2, true);
    assert_eq!(adj.len(), 8);
    let mut seen = HashSet::new();
    for c in &adj {
        assert!(c.row <= 2 && c.col <= 2);
        assert!(!(c.row == 1 && c.col == 1));
        assert!(seen.insert((c.row, c.col)));
    }
}

#[test]
fn adjacent_candidates_corner_clipped() {
    let mut g = Grouping::new("a".to_string());
    g.locations.push(Coord::new(0, 0));
    let adj = g.get_adjacent_coords(0, 0, false);
    assert!(adj.is_empty());
}

#[test]
fn priming_gives_one_seed_each() {
    let mut rng = rand::thread_rng();
    let mut grid = create_empty_grid(4, 4);
    let mut groups = vec![
        Grouping::new("a".to_string()),
        Grouping::new("b".to_string()),
        Grouping::new("c".to_string()),
        Grouping::new("d".to_string()),
        Grouping::new("e".to_string()),
    ];
    prime_grid_with_groups(&mut grid, &mut groups, &mut rng, 2, 2);
    let mut seen = HashSet::new();
    for g in &groups {
        assert_eq!(g.locations.len(), 1);
        let seed = &g.locations[0];
        assert!(seed.row < 4 && seed.col < 4);
        // no two groups share a seed cell
        assert!(seen.insert((seed.row, seed.col)));
        // the grid records the claim
        let record = grid.get(seed.row, seed.col).unwrap();
        assert!(record.group.is_some());
        assert_eq!(record.coord, Some(seed.clone()));
    }
}

#[test]
fn pick_weighted_single_candidate() {
    let mut rng = rand::thread_rng();
    let mut g = Grouping::new("a".to_string());
    g.locations.push(Coord::new(0, 0));
    let coords = vec![Coord::new(7, 7)];
    let picked = weighted_coord_rng_districts(&mut rng, &coords, &g);
    assert_eq!(picked, Coord::new(7, 7));
}

#[test]
fn pick_weighted_stays_among_candidates() {
    let mut rng = rand::thread_rng();
    let mut g = Grouping::new("a".to_string());
    g.locations.push(Coord::new(0, 0));
    let coords = vec![Coord::new(0, 1), Coord::new(1, 0), Coord::new(5, 5)];
    for _ in 0..50 {
        let picked = weighted_coord_rng_districts(&mut rng, &coords, &g);
        assert!(coords.contains(&picked));
    }
}

#[test]
fn generate_ten_by_ten_five_regions() {
    let mut rng = rand::thread_rng();
    let mut groups = vec![
        Grouping::new("slum".to_string()),
        Grouping::new("suburb".to_string()),
        Grouping::new("adventuring".to_string()),
        Grouping::new("financial".to_string()),
        Grouping::new("business".to_string()),
    ];
    let grid = generate(&mut groups, 10, 10, 2, 2, &mut rng);
    // the five regions' location counts sum to the full grid
    let total: usize = groups.iter().map(|g| g.locations.len()).sum();
    assert_eq!(total, 100);
    // no cell is recorded twice
    let mut seen = HashSet::new();
    for g in &groups {
        assert!(!g.locations.is_empty());
        for c in &g.locations {
            assert!(seen.insert((c.row, c.col)));
        }
    }
    // every cell's owner is set
    for row in 0..10 {
        for col in 0..10 {
            let record = grid.get(row, col).unwrap();
            assert!(record.group.is_some());
            assert!(record.coord.is_some());
        }
    }
    // every region is enclosed: each 4-neighbor of a claimed cell is claimed
    // or outside the grid (trivial here since the grid is full, checked anyway)
    for g in &groups {
        for c in &g.locations {
            let mut neighbors = Vec::new();
            if c.row > 0 {
                neighbors.push((c.row - 1, c.col));
            }
            if c.row < 9 {
                neighbors.push((c.row + 1, c.col));
            }
            if c.col > 0 {
                neighbors.push((c.row, c.col - 1));
            }
            if c.col < 9 {
                neighbors.push((c.row, c.col + 1));
            }
            for (r, cl) in neighbors {
                assert!(grid.get(r, cl).unwrap().group.is_some());
            }
        }
    }
}

#[test]
fn generate_single_region_single_cell() {
    let mut rng = rand::thread_rng();
    let mut groups = vec![Grouping::new("only".to_string())];
    let grid = generate(&mut groups, 1, 1, 1, 1, &mut rng);
    assert_eq!(groups[0].locations.len(), 1);
    assert_eq!(groups[0].locations[0], Coord::new(0, 0));
    assert!(grid.get(0, 0).unwrap().group.is_some());
}

#[test]
fn generate_keeps_names_and_colors() {
    let mut rng = rand::thread_rng();
    let mut a = Grouping::new("a".to_string());
    a.with_color((1, 2, 3));
    let mut b = Grouping::new("b".to_string());
    b.with_color((4, 5, 6));
    let mut groups = vec![a, b];
    generate(&mut groups, 3, 3, 1, 1, &mut rng);
    assert_eq!(groups[0].name, "a");
    assert_eq!(groups[0].rgb_color, (1, 2, 3));
    assert_eq!(groups[1].name, "b");
    assert_eq!(groups[1].rgb_color, (4, 5, 6));
}

#[test]
fn owner_copy_is_a_snapshot() {
    let mut rng = rand::thread_rng();
    let mut groups = vec![Grouping::new("north".to_string())];
    let grid = generate(&mut groups, 2, 2, 1, 1, &mut rng);
    // recolor the canonical region after the run: stored owner copies keep
    // the color they were claimed with
    groups[0].rgb_color = (200, 200, 200);
    let owner = grid.get(0, 0).unwrap().group.as_ref().unwrap();
    assert_eq!(owner.rgb_color, (0, 0, 0));
}

#[test]
fn adjacent_candidates_empty_region() {
    let g = Grouping::new("bare".to_string());
    assert!(g.get_adjacent_coords(5, 5, false).is_empty());
    assert!(g.get_adjacent_coords(5, 5, true).is_empty());
}

#[test]
fn generate_at_full_capacity() {
    // as many regions as cells: priming alone fills the grid
    let mut rng = rand::thread_rng();
    let mut groups = vec![
        Grouping::new("a".to_string()),
        Grouping::new("b".to_string()),
        Grouping::new("c".to_string()),
        Grouping::new("d".to_string()),
    ];
    let grid = generate(&mut groups, 2, 2, 1, 1, &mut rng);
    let mut seen = HashSet::new();
    for g in &groups {
        assert_eq!(g.locations.len(), 1);
        assert!(seen.insert((g.locations[0].row, g.locations[0].col)));
    }
    for row in 0..2 {
        for col in 0..2 {
            assert!(grid.get(row, col).unwrap().group.is_some());
        }
    }
}

#[test]
fn grouping_to_string_several_locations() {
    let mut g = Grouping::new("docks".to_string());
    g.locations.push(Coord::new(0, 0));
    g.locations.push(Coord::new(10, 42));
    assert_eq!(
        g.to_string(),
        "Group Printout:\nName: docks\nrow: 0, col: 0\nrow: 10, col: 42\n"
    );
}

#[test]
fn coord_to_string_large_indices() {
    assert_eq!(Coord::new(1023, 100).to_string(), "row: 1023, col: 100");
}

#[test]
fn generate_reruns_reset_locations() {
    // a second run clears the histories before growing them again
    let mut rng = rand::thread_rng();
    let mut groups = vec![Grouping::new("a".to_string()), Grouping::new("b".to_string())];
    generate(&mut groups, 3, 3, 1, 1, &mut rng);
    let first_total: usize = groups.iter().map(|g| g.locations.len()).sum();
    assert_eq!(first_total, 9);
    generate(&mut groups, 3, 3, 1, 1, &mut rng);
    let second_total: usize = groups.iter().map(|g| g.locations.len()).sum();
    assert_eq!(second_total, 9);
}

#[test]
fn coord_orders_row_major() {
    assert!(Coord::new(1, 5) < Coord::new(2, 0));
    assert!(Coord::new(1, 2) < Coord::new(1, 3));
    assert!(Coord::new(0, 9) < Coord::new(1, 0));
    assert_eq!(Coord::new(2, 2), Coord::new(2, 2));
}
