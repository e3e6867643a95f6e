use city_grid::grouping::Building;
use city_grid::grouping::BuildingType;
use city_grid::grouping::Coord;
use city_grid::grouping::GroupInstance;
use city_grid::grouping::Grouping;
use city_grid::neighborhood::add_roads_to_neighborhood;
use city_grid::neighborhood::build_type_from_draw;
use city_grid::neighborhood::classify_buildings;
use city_grid::neighborhood::gen_build_type_color;
use city_grid::neighborhood::gen_nhood_colors;
use city_grid::neighborhood::generate_neighborhood;
use std::collections::HashSet;

fn fresh_instance(rows: usize, cols: usize) -> GroupInstance {
    GroupInstance::new(Grouping::new("test".to_string()), Coord::new(0, 0), rows, cols)
}

#[test]
fn palette_has_exact_size_and_no_duplicates() {
    let mut rng = rand::thread_rng();
    for requested in [1usize, 3, 7, 40, 127] {
        let palette = gen_nhood_colors(&mut rng, requested);
        assert_eq!(palette.len(), requested);
        let mut seen = HashSet::new();
        for c in &palette {
            assert!(seen.insert(*c));
        }
    }
}

#[test]
fn palette_channels_sit_on_the_level_grid() {
    let mut rng = rand::thread_rng();
    // seven colors: 42 levels, so a spacing of 255 / 42 = 6 per channel
    let palette = gen_nhood_colors(&mut rng, 7);
    for (r, g, b) in palette {
        for channel in [r, g, b] {
            assert_eq!(channel % 6, 0);
            assert!((6..=240).contains(&channel));
        }
    }
}

#[test]
fn palette_empty_when_none_requested() {
    let mut rng = rand::thread_rng();
    let palette = gen_nhood_colors(&mut rng, 0);
    assert!(palette.is_empty());
}

#[test]
fn build_type_ratios_exact() {
    assert_eq!(build_type_from_draw(0), BuildingType::Road);
    for d in 1..=5 {
        assert_eq!(build_type_from_draw(d), BuildingType::Residence);
    }
    for d in 6..=8 {
        assert_eq!(build_type_from_draw(d), BuildingType::Shop);
    }
    assert_eq!(build_type_from_draw(9), BuildingType::Empty);
}

#[test]
fn building_color_drawn_from_palette() {
    let mut rng = rand::thread_rng();
    let colors = vec![(6, 6, 6), (12, 12, 12), (18, 18, 18)];
    for _ in 0..30 {
        let (_, color) = gen_build_type_color(&mut rng, &colors);
        assert!(colors.contains(&color));
    }
}

#[test]
fn classification_skips_road_cells() {
    let mut rng = rand::thread_rng();
    let mut inst = fresh_instance(3, 3);
    // mark one cell as a road with a color no palette can produce
    *inst.sub_grid.get_mut(1, 1).unwrap() =
        Building { build_type: BuildingType::Road, rgb_color: (9, 9, 9) };
    let colors = vec![(6, 6, 6), (12, 12, 12), (18, 18, 18)];
    classify_buildings(&mut inst, &mut rng, &colors);
    // the road cell is untouched
    let road = inst.sub_grid.get(1, 1).unwrap();
    assert_eq!(road.build_type, BuildingType::Road);
    assert_eq!(road.rgb_color, (9, 9, 9));
    // every other cell was classified with a palette color
    for row in 0..3 {
        for col in 0..3 {
            if row == 1 && col == 1 {
                continue;
            }
            let cell = inst.sub_grid.get(row, col).unwrap();
            assert!(colors.contains(&cell.rgb_color));
        }
    }
}

#[test]
fn road_pass_paints_full_rows_and_columns() {
    let mut rng = rand::thread_rng();
    let mut inst = fresh_instance(5, 5);
    let num_colors = add_roads_to_neighborhood(&mut inst, &mut rng);
    assert!((3..=127).contains(&num_colors));
    for row in 0..5 {
        for col in 0..5 {
            let cell = inst.sub_grid.get(row, col).unwrap();
            match cell.build_type {
                BuildingType::Road => {
                    assert_eq!(cell.rgb_color, (55, 55, 55));
                }
                BuildingType::Empty => {
                    assert_eq!(cell.rgb_color, (0, 0, 0));
                }
                _ => panic!("road pass must not classify buildings"),
            }
        }
    }
    // a road runs along a whole row or a whole column: every road cell
    // lies on a fully painted row or a fully painted column
    let is_road = |row: usize, col: usize| {
        inst.sub_grid.get(row, col).unwrap().build_type == BuildingType::Road
    };
    for row in 0..5 {
        for col in 0..5 {
            if is_road(row, col) {
                let full_row = (0..5).all(|c| is_road(row, c));
                let full_col = (0..5).all(|r| is_road(r, col));
                assert!(full_row || full_col);
            }
        }
    }
}

#[test]
fn one_by_one_neighborhood_clamps_roads_away() {
    let mut rng = rand::thread_rng();
    for _ in 0..20 {
        let mut inst = fresh_instance(1, 1);
        generate_neighborhood(&mut inst, &mut rng);
        let cell = inst.sub_grid.get(0, 0).unwrap();
        // the ratio range fits no deliberate road in a 1x1 grid, so the one
        // cell is classified from the three-color palette: its channels sit
        // on the 42-level grid (spacing six), unlike the fixed road gray
        assert_ne!(cell.rgb_color, (55, 55, 55));
        for channel in [cell.rgb_color.0, cell.rgb_color.1, cell.rgb_color.2] {
            assert_eq!(channel % 6, 0);
            assert!((6..=240).contains(&channel));
        }
    }
}

#[test]
fn generate_neighborhood_touches_every_cell() {
    let mut rng = rand::thread_rng();
    let mut inst = fresh_instance(4, 4);
    generate_neighborhood(&mut inst, &mut rng);
    for row in 0..4 {
        for col in 0..4 {
            let cell = inst.sub_grid.get(row, col).unwrap();
            if cell.rgb_color == (55, 55, 55) && cell.build_type == BuildingType::Road {
                // a deliberately placed road
                continue;
            }
            // otherwise the classification pass assigned a palette color
            for channel in [cell.rgb_color.0, cell.rgb_color.1, cell.rgb_color.2] {
                assert_eq!(channel % 6, 0);
                assert!((6..=240).contains(&channel));
            }
        }
    }
}

#[test]
fn full_city_synthesis_keeps_ownership() {
    let mut rng = rand::thread_rng();
    let mut districts = vec![
        Grouping::new("north".to_string()),
        Grouping::new("south".to_string()),
    ];
    let mut city = city_grid::engine::generate(&mut districts, 4, 4, 3, 3, &mut rng);
    let owners_before: Vec<String> = (0..4)
        .flat_map(|r| (0..4).map(move |c| (r, c)))
        .map(|(r, c)| city.get(r, c).unwrap().group.as_ref().unwrap().name.clone())
        .collect();
    city_grid::neighborhood::generate_all_neighborhoods(&mut city, &mut rng);
    // ownership is untouched and every sub-grid cell was synthesized
    let mut idx = 0;
    for r in 0..4 {
        for c in 0..4 {
            let inst = city.get(r, c).unwrap();
            assert_eq!(inst.group.as_ref().unwrap().name, owners_before[idx]);
            idx += 1;
            for sr in 0..3 {
                for sc in 0..3 {
                    let cell = inst.sub_grid.get(sr, sc).unwrap();
                    let road = cell.build_type == BuildingType::Road
                        && cell.rgb_color == (55, 55, 55);
                    let classified = cell.rgb_color.0 % 6 == 0 && cell.rgb_color.0 >= 6;
                    assert!(road || classified);
                }
            }
        }
    }
}

#[test]
fn instance_new_builds_default_sub_grid() {
    let inst = fresh_instance(2, 3);
    assert!(inst.group.is_some());
    assert_eq!(inst.coord, Some(Coord::new(0, 0)));
    assert_eq!(inst.sub_grid.rows(), 2);
    assert_eq!(inst.sub_grid.cols(), 3);
    for row in 0..2 {
        for col in 0..3 {
            let cell = inst.sub_grid.get(row, col).unwrap();
            assert_eq!(cell.build_type, BuildingType::Empty);
            assert_eq!(cell.rgb_color, (0, 0, 0));
        }
    }
}

#[test]
fn initialize_sub_grid_resets_dimensions() {
    let mut inst = fresh_instance(2, 2);
    inst.initialize_sub_grid(4, 5);
    assert_eq!(inst.sub_grid.rows(), 4);
    assert_eq!(inst.sub_grid.cols(), 5);
    assert_eq!(
        inst.sub_grid.get(3, 4).unwrap().build_type,
        BuildingType::Empty
    );
}
