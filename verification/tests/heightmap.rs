use rustgeomapping::data_types::heightmap::{
    bin_index, feature_edge_bins, file_bounds, group_points, parse_heightmap_text, reduce_cell, trans_to_heightmap, CellStat,
    Heightmap, HeightmapError, MapGenOpt,
};

fn b(v: f32) -> u32 {
    v.to_bits()
}

fn rows(v: &[&[f32]]) -> Vec<Vec<u32>> {
    v.iter().map(|r| r.iter().map(|x| x.to_bits()).collect()).collect()
}

fn floats(cells: Vec<Vec<u32>>) -> Vec<Vec<f32>> {
    cells.into_iter().map(|r| r.into_iter().map(f32::from_bits).collect()).collect()
}

fn map(width: usize, height: usize, cells: &[&[f32]]) -> Heightmap {
    Heightmap::from_parts(width, height, rows(cells), [b(0.0), b(0.0)], [b(1.0), b(1.0)], String::from("test"))
}

#[test]
fn new_map_is_blank() {
    let h = Heightmap::new(3, 2);
    assert_eq!(h.width(), 3);
    assert_eq!(h.height(), 2);
    assert_eq!(h.no_of_cells, 6);
    assert_eq!(h.cells(), vec![vec![0u32; 2]; 3]);
    assert_eq!(h.lower_coord_bounds(), [0, 0]);
    assert_eq!(h.upper_coord_bounds(), [0, 0]);
    assert_eq!(h.filename, "No filepath");
}

#[test]
fn default_map_is_250_square() {
    let h = Heightmap::default();
    assert_eq!((h.width(), h.height(), h.no_of_cells), (250, 250, 62500));
}

#[test]
fn cell_reads_beyond_the_map_are_refused() {
    let h = Heightmap::new(3, 2);
    assert_eq!(h.get_cell_height(4, 0), Err(HeightmapError::ReadOutOfRange));
    assert_eq!(h.get_cell_height(0, 3), Err(HeightmapError::ReadOutOfRange));
    assert_eq!(h.get_cell_height(2, 1), Ok(0));
}

#[test]
fn a_written_cell_reads_back() {
    let mut h = Heightmap::new(3, 2);
    assert_eq!(h.set_cell_height_no_check(1, 1, b(4.5)), Ok(()));
    assert_eq!(h.get_cell_height(1, 1), Ok(b(4.5)));
    assert_eq!(h.get_cell_height(0, 1), Ok(0));
    assert_eq!(h.set_cell_height_no_check(5, 0, b(1.0)), Err(HeightmapError::WriteOutOfRange));
    assert_eq!(h.set_cell_height(2, 1, b(-3.0)), Ok(()));
    assert_eq!(h.get_cell_height(2, 1), Ok(b(-3.0)));
    assert_eq!(h.set_cell_height(0, 9, b(1.0)), Err(HeightmapError::WriteOutOfRange));
}

#[test]
fn deepest_row_skips_the_first_row_and_first_scanned_cell() {
    let mut h = map(3, 3, &[&[9.0, 9.0, 9.0], &[10.0, 7.0, 2.0], &[3.0, 4.0, 8.0]]);
    let (row, max, contents) = h.deepest_row();
    assert_eq!(row, 2);
    assert_eq!(max, b(8.0));
    assert_eq!(contents, rows(&[&[3.0, 4.0, 8.0]])[0]);
    // A new maximum written elsewhere is taken as it is.
    assert_eq!(h.set_cell_height(0, 0, b(20.0)), Ok(()));
    let (row, max, _) = h.deepest_row();
    assert_eq!((row, max), (0, b(20.0)));
}

#[test]
fn extremes_follow_set_all_cells_and_set_map() {
    let mut h = map(3, 3, &[&[0.0; 3], &[0.0; 3], &[0.0; 3]]);
    h.set_all_cells(b(5.0));
    assert_eq!(floats(h.cells()), vec![vec![5.0; 3]; 3]);
    let (row, max, _) = h.deepest_row();
    assert_eq!((row, max), (1, b(5.0)));
    let other = map(3, 3, &[&[1.0, 2.0, 3.0], &[4.0, 5.0, 6.0], &[7.0, 9.0, 8.0], &[0.0, 0.0, 0.0]]);
    h.set_map(other);
    assert_eq!(floats(h.cells()), vec![vec![1.0, 2.0, 3.0], vec![4.0, 5.0, 6.0], vec![7.0, 9.0, 8.0]]);
    let (row, max, _) = h.deepest_row();
    assert_eq!((row, max), (2, b(9.0)));
}

#[test]
fn offset_shifts_every_cell_unless_nan() {
    let mut h = map(2, 2, &[&[1.0, f32::NAN], &[3.0, -1.0]]);
    h.offset_map(b(0.5), |x: u32, y: u32| (f32::from_bits(x) + f32::from_bits(y)).to_bits());
    let c = floats(h.cells());
    assert_eq!(c[0][0], 1.5);
    assert!(c[0][1].is_nan());
    assert_eq!(c[1], vec![3.5, -0.5]);
    h.offset_map(f32::NAN.to_bits(), |x: u32, y: u32| (f32::from_bits(x) + f32::from_bits(y)).to_bits());
    assert_eq!(floats(h.cells())[1], vec![3.5, -0.5]);
}

#[test]
fn nans_are_counted_and_cells_flattened() {
    let h = map(2, 3, &[&[1.0, f32::NAN, 2.0], &[f32::NAN, 3.0, f32::NAN]]);
    assert_eq!(h.no_of_nans(), 3);
    let flat: Vec<u32> = h.get_flattened_cells().unwrap();
    assert_eq!(flat, rows(&[&[1.0, f32::NAN, 2.0, f32::NAN, 3.0, f32::NAN]])[0]);
}

#[test]
fn pasting_copies_known_cells_under_the_other_map() {
    let mut h = Heightmap::new(4, 4);
    let other = map(2, 2, &[&[1.0, f32::NAN], &[3.0, 4.0]]);
    h.paste_section(other, 1, 2);
    assert_eq!(
        floats(h.cells()),
        vec![vec![0.0; 4], vec![0.0, 0.0, 1.0, 0.0], vec![0.0, 0.0, 3.0, 4.0], vec![0.0; 4]]
    );
    let mut h = Heightmap::new(4, 4);
    let other = map(2, 2, &[&[1.0, 2.0], &[3.0, 4.0]]);
    h.paste_section(other, -1, -1);
    assert_eq!(floats(h.cells())[0], vec![4.0, 0.0, 0.0, 0.0]);
}

#[test]
fn bins_are_found_by_upper_limits() {
    let limits = vec![b(1.0), b(2.0), b(3.0)];
    assert_eq!(bin_index(b(0.5), &limits), 0);
    assert_eq!(bin_index(b(1.0), &limits), 0);
    assert_eq!(bin_index(b(1.5), &limits), 1);
    assert_eq!(bin_index(b(9.0), &limits), 2);
    assert_eq!(bin_index(f32::NAN.to_bits(), &limits), 2);
    assert_eq!(bin_index(b(0.5), &vec![b(1.0)]), 0);
}

fn sample_points() -> Vec<[u32; 3]> {
    vec![
        [b(0.5), b(0.5), b(1.0)],
        [b(1.5), b(0.5), b(3.0)],
        [b(0.4), b(0.2), b(2.0)],
        [b(1.5), b(1.5), f32::NAN.to_bits()],
    ]
}

#[test]
fn points_are_reduced_per_cell() {
    let limits = vec![b(1.0), b(2.0)];
    let mean = trans_to_heightmap(sample_points(), &limits, &limits, MapGenOpt::Mean);
    assert_eq!(mean.len(), 2);
    assert_eq!(mean[0][0], CellStat::MeanOf(vec![b(1.0), b(2.0)]));
    assert_eq!(mean[0][1], CellStat::MeanOf(vec![b(3.0)]));
    assert_eq!(mean[1][0], CellStat::Unknown);
    assert_eq!(mean[1][1], CellStat::Unknown);
    let min = trans_to_heightmap(sample_points(), &limits, &limits, MapGenOpt::Min);
    assert_eq!(min[0][0], CellStat::Value(b(1.0)));
    let max = trans_to_heightmap(sample_points(), &limits, &limits, MapGenOpt::Max);
    assert_eq!(max[0][0], CellStat::Value(b(2.0)));
    assert_eq!(max[0][1], CellStat::Value(b(3.0)));
}

#[test]
fn medians_take_the_middle_of_the_sorted_heights() {
    assert_eq!(reduce_cell(vec![b(3.0), b(1.0), b(2.0)], &MapGenOpt::Median), CellStat::Value(b(2.0)));
    assert_eq!(
        reduce_cell(vec![b(4.0), b(1.0), b(2.0), b(3.0)], &MapGenOpt::Median),
        CellStat::MidpointOf(b(3.0), b(2.0))
    );
    assert_eq!(reduce_cell(vec![b(7.0)], &MapGenOpt::Median), CellStat::Value(b(7.0)));
    assert_eq!(reduce_cell(vec![], &MapGenOpt::Median), CellStat::Unknown);
    assert_eq!(reduce_cell(vec![f32::NAN.to_bits()], &MapGenOpt::Max), CellStat::Unknown);
    assert_eq!(reduce_cell(vec![b(-1.0), f32::NAN.to_bits(), b(5.0)], &MapGenOpt::Min), CellStat::Value(b(-1.0)));
    assert_eq!(
        reduce_cell(vec![b(-1.0), f32::NAN.to_bits(), b(5.0)], &MapGenOpt::Mean),
        CellStat::MeanOf(vec![b(-1.0), b(5.0)])
    );
}

fn steps(row: &[f32]) -> (Vec<u32>, Vec<u32>, Vec<u32>) {
    let bits: Vec<u32> = row.iter().map(|x| x.to_bits()).collect();
    let rises = (0..row.len() - 1).map(|i| (row[i + 1] - row[i]).to_bits()).collect();
    let falls = (0..row.len()).map(|i| if i == 0 { 0 } else { (row[i - 1] - row[i]).to_bits() }).collect();
    (bits, rises, falls)
}

#[test]
fn feature_edges_are_found_and_checked() {
    let (row, rises, falls) = steps(&[1.0, 1.0, 1.002, 1.004, 1.002, 1.0]);
    assert_eq!(feature_edge_bins(&row, &rises, &falls, 6, 3), Ok((1, 5)));
    assert_eq!(feature_edge_bins(&row, &rises, &falls, 6, 0), Err(HeightmapError::DeepestOutsideEdges));
    assert_eq!(feature_edge_bins(&row, &rises, &falls, 6, 5), Err(HeightmapError::InvalidEdges));
    let (row, rises, falls) = steps(&[1.0, 1.0, 1.0, 1.0]);
    assert_eq!(feature_edge_bins(&row, &rises, &falls, 4, 2), Err(HeightmapError::OneEdge));
    // Zero heights are unknown and make no edge.
    let (row, rises, falls) = steps(&[0.0, 0.002, 0.004, 0.002, 0.0]);
    assert_eq!(feature_edge_bins(&row, &rises, &falls, 5, 2), Ok((1, 3)));
}

fn texts(v: &[Vec<char>]) -> Vec<String> {
    v.iter().map(|c| c.iter().collect()).collect()
}

#[test]
fn heightmap_text_splits_into_tokens() {
    let text: Vec<char> = "bnds(low_point,upper_point):[0,1.5][2,3]\n1,2,3,\n4,,5,6,\r\n\n".chars().collect();
    let parsed = parse_heightmap_text(&text);
    assert_eq!(texts(&parsed.bound_tokens), vec!["0", "1.5", "2", "3"]);
    let rows: Vec<Vec<String>> = parsed.rows.iter().map(|r| texts(r)).collect();
    assert_eq!(rows, vec![vec!["1", "2", "3"], vec!["4", "5", "6"], vec![]]);
}

#[test]
fn bounds_line_without_brackets_has_no_tokens() {
    let text: Vec<char> = "no bounds here".chars().collect();
    let parsed = parse_heightmap_text(&text);
    assert!(parsed.bound_tokens.is_empty());
    assert!(parsed.rows.is_empty());
}

#[test]
fn loaded_rows_make_the_map() {
    let h = Heightmap::create_from_rows(
        String::from("f.txt"),
        [b(0.0), b(1.0), b(2.0), b(3.0)],
        rows(&[&[1.0, 2.0, 3.0], &[4.0, 5.0, 6.0]]),
    );
    assert_eq!((h.width(), h.height(), h.no_of_cells), (3, 2, 6));
    assert_eq!(h.lower_coord_bounds(), [b(0.0), b(1.0)]);
    assert_eq!(h.upper_coord_bounds(), [b(2.0), b(3.0)]);
    assert_eq!(h.filename, "f.txt");
    assert!(h.has_cell(1, 2));
    assert!(!h.has_cell(2, 0));
}

fn plus(a: u32, b: u32) -> u32 {
    (f32::from_bits(a) + f32::from_bits(b)).to_bits()
}

fn divide(t: u32, n: i32) -> u32 {
    (f32::from_bits(t) / n as f32).to_bits()
}

#[test]
fn an_inner_unknown_cell_takes_the_mean_of_its_eight_neighbours() {
    let mut h = map(3, 3, &[&[1.0, 2.0, 3.0], &[4.0, f32::NAN, 6.0], &[7.0, 8.0, 9.0]]);
    h.interpolate_nan(plus, divide);
    assert_eq!(floats(h.cells())[1][1], (1.0 + 2.0 + 3.0 + 4.0 + 6.0 + 7.0 + 8.0 + 9.0) / 8.0);
    assert_eq!(floats(h.cells())[0], vec![1.0, 2.0, 3.0]);
}

#[test]
fn a_corner_unknown_cell_reads_three_neighbours() {
    let mut h = map(3, 3, &[&[f32::NAN, 2.0, 3.0], &[4.0, 5.0, 6.0], &[7.0, 8.0, 9.0]]);
    h.interpolate_nan(plus, divide);
    assert_eq!(floats(h.cells())[0][0], (2.0f32 + 4.0 + 5.0) / 3.0);
}

#[test]
fn unknown_neighbours_are_neither_added_nor_counted() {
    let mut h = map(3, 3, &[&[1.0, 2.0, 3.0], &[4.0, f32::NAN, 6.0], &[7.0, 8.0, f32::NAN]]);
    h.interpolate_nan(plus, divide);
    let c = floats(h.cells());
    assert_eq!(c[1][1], (1.0 + 2.0 + 3.0 + 4.0 + 6.0 + 7.0 + 8.0) / 7.0);
    // The last cell sees the filled centre: its neighbours are (1, 2), (2, 1) and (1, 1).
    assert_eq!(c[2][2], (6.0 + c[1][1] + 8.0) / 3.0);
}

#[test]
fn the_left_edge_flag_carries_over_to_a_later_right_edge_cell() {
    let mut h = map(3, 3, &[&[f32::NAN, 2.0, 3.0], &[4.0, 5.0, f32::NAN], &[7.0, 8.0, 9.0]]);
    h.interpolate_nan(plus, divide);
    let c = floats(h.cells());
    assert_eq!(c[0][0], (2.0f32 + 4.0 + 5.0) / 3.0);
    // Only the cells above and below are read: both edge flags are set.
    assert_eq!(c[1][2], (3.0 + 9.0) / 2.0);
}

#[test]
fn a_map_without_unknown_cells_is_left_alone() {
    let mut h = map(1, 1, &[&[5.0]]);
    h.interpolate_nan(plus, divide);
    assert_eq!(floats(h.cells()), vec![vec![5.0]]);
}

#[test]
fn every_point_is_grouped_into_one_cell() {
    let limits = vec![b(1.0), b(2.0)];
    let groups = group_points(&sample_points(), &limits, &limits);
    let total: usize = groups.iter().map(|r| r.iter().map(|c| c.len()).sum::<usize>()).sum();
    assert_eq!(total, sample_points().len());
}

#[test]
fn pasting_twice_is_pasting_once() {
    let other = map(2, 2, &[&[1.0, f32::NAN], &[3.0, 4.0]]);
    let other2 = map(2, 2, &[&[1.0, f32::NAN], &[3.0, 4.0]]);
    let mut h = Heightmap::new(4, 4);
    h.paste_section(other, 1, 2);
    let once = h.cells();
    h.paste_section(other2, 1, 2);
    assert_eq!(h.cells(), once);
}

#[test]
fn errors_carry_their_messages() {
    assert_eq!(HeightmapError::OneEdge.message(), "Only one edge detected!");
    assert_eq!(
        HeightmapError::ReadOutOfRange.message(),
        "Warning - attempting to read from cell that doesnt exist!"
    );
    assert_eq!(HeightmapError::InvalidEdges.message(), "Invalid edge config");
}

#[test]
fn a_flat_map_with_holes_is_filled_flat() {
    let mut h = Heightmap::new(3, 3);
    h.set_all_cells(b(2.0));
    h.set_cell_height_no_check(0, 0, f32::NAN.to_bits()).unwrap();
    h.set_cell_height_no_check(1, 1, f32::NAN.to_bits()).unwrap();
    h.interpolate_nan(plus, divide);
    assert_eq!(floats(h.cells()), vec![vec![2.0; 3]; 3]);
}

#[test]
fn a_cell_with_no_known_neighbour_becomes_zero() {
    let mut h = map(3, 3, &[&[f32::NAN; 3], &[f32::NAN; 3], &[f32::NAN; 3]]);
    h.interpolate_nan(plus, divide);
    let c = floats(h.cells());
    // The first cell has no known neighbour; every later one sees it filled.
    assert_eq!(c[0][0], 0.0);
    assert!(c.iter().flatten().all(|v| !v.is_nan()));
}

#[test]
fn the_order_of_the_points_does_not_change_min_max_or_median() {
    let limits = vec![b(1.0), b(2.0)];
    let mut shuffled = sample_points();
    shuffled.reverse();
    shuffled.swap(0, 2);
    let opt = |k: usize| match k {
        0 => MapGenOpt::Min,
        1 => MapGenOpt::Max,
        _ => MapGenOpt::Median,
    };
    for k in 0..3 {
        let a = trans_to_heightmap(sample_points(), &limits, &limits, opt(k));
        let c = trans_to_heightmap(shuffled.clone(), &limits, &limits, opt(k));
        assert_eq!(a, c);
    }
}

#[test]
fn file_bounds_are_unknown_unless_every_token_reads() {
    let nan = f32::NAN.to_bits();
    assert_eq!(file_bounds(&vec![Some(b(1.0)), Some(b(2.0)), Some(b(3.0)), Some(b(4.0))]), [b(1.0), b(2.0), b(3.0), b(4.0)]);
    assert_eq!(file_bounds(&vec![Some(b(1.0)), None, Some(b(3.0)), Some(b(4.0))]), [nan; 4]);
    assert_eq!(file_bounds(&vec![Some(b(1.0)), Some(b(2.0))]), [b(1.0), b(2.0), nan, nan]);
    assert_eq!(file_bounds(&vec![Some(b(1.0)), Some(b(2.0)), Some(b(3.0)), Some(b(4.0)), None]), [nan; 4]);
}

#[test]
fn a_map_holds_another_only_where_their_areas_overlap() {
    let main = Heightmap::from_parts(2, 2, rows(&[&[0.0, 0.0], &[0.0, 0.0]]), [b(0.0), b(0.0)], [b(10.0), b(10.0)], String::from("m"));
    let inside = Heightmap::from_parts(1, 1, rows(&[&[1.0]]), [b(2.0), b(2.0)], [b(4.0), b(4.0)], String::from("i"));
    let touching = Heightmap::from_parts(1, 1, rows(&[&[1.0]]), [b(10.0), b(0.0)], [b(12.0), b(3.0)], String::from("t"));
    let beyond = Heightmap::from_parts(1, 1, rows(&[&[1.0]]), [b(11.0), b(2.0)], [b(12.0), b(4.0)], String::from("b"));
    assert!(main.can_hold(&inside));
    assert!(main.can_hold(&touching));
    assert!(!main.can_hold(&beyond));
}
