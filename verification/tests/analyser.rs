use rustgeomapping::analysis::analyser::{
    average_heightmaps, comp_maps, contains_name, largest_average, parametric_schedule, transform_flag, Analyser, AnalyserError,
};
use rustgeomapping::data_types::heightmap::{Heightmap, HeightmapError};

fn b(v: f32) -> u32 {
    v.to_bits()
}

fn map(width: usize, height: usize, cells: &[&[f32]]) -> Heightmap {
    let rows = cells.iter().map(|r| r.iter().map(|x| x.to_bits()).collect()).collect();
    Heightmap::from_parts(width, height, rows, [b(0.0), b(0.0)], [b(1.0), b(1.0)], String::from("m"))
}

fn floats(cells: Vec<Vec<u32>>) -> Vec<Vec<f32>> {
    cells.into_iter().map(|r| r.into_iter().map(f32::from_bits).collect()).collect()
}

fn minus(a: u32, c: u32) -> u32 {
    (f32::from_bits(a) - f32::from_bits(c)).to_bits()
}

#[test]
fn differences_are_taken_cell_by_cell() {
    let curr = map(2, 2, &[&[5.0, 6.0], &[7.0, 8.0]]);
    let desired = map(2, 2, &[&[1.0, 1.0], &[1.0, 2.0]]);
    let d = comp_maps(&curr, &desired, minus).unwrap();
    assert_eq!((d.width(), d.height()), (2, 2));
    // cell (m, n) of the difference is the difference of cells (n, m)
    assert_eq!(floats(d.cells()), vec![vec![4.0, 6.0], vec![5.0, 6.0]]);
}

#[test]
fn maps_of_different_sizes_are_not_compared() {
    let curr = map(2, 2, &[&[5.0, 6.0], &[7.0, 8.0]]);
    let desired = map(2, 3, &[&[1.0, 1.0, 1.0], &[1.0, 1.0, 1.0]]);
    assert_eq!(comp_maps(&curr, &desired, minus).err(), Some(HeightmapError::SizeMismatch));
}

#[test]
fn comparing_lookups_beyond_the_width_fail() {
    // one row wide, three cells high: the lookup of cell (2, 0) is beyond the width
    let curr = map(1, 3, &[&[1.0], &[2.0]]);
    let desired = map(1, 3, &[&[1.0], &[2.0]]);
    assert_eq!(comp_maps(&curr, &desired, minus).err(), Some(HeightmapError::ReadOutOfRange));
}

fn sum(vals: Vec<u32>) -> u32 {
    let mut t: f32 = 0.0;
    for v in vals {
        t += f32::from_bits(v);
    }
    t.to_bits()
}

fn divide(t: u32, n: i32) -> u32 {
    (f32::from_bits(t) / n as f32).to_bits()
}

#[test]
fn averages_leave_out_unknown_heights() {
    let a = map(2, 2, &[&[1.0, f32::NAN], &[3.0, 4.0]]);
    let c = map(2, 2, &[&[3.0, f32::NAN], &[5.0, 8.0]]);
    let avg = average_heightmaps(&[a, c], [b(-1.0), b(-2.0)], [b(1.0), b(2.0)], sum, divide).unwrap();
    let cells = floats(avg.cells());
    assert_eq!(cells[0], vec![2.0, 4.0]);
    assert!(cells[1][0].is_nan());
    assert_eq!(cells[1][1], 6.0);
    assert_eq!(avg.lower_coord_bounds(), [b(-1.0), b(-2.0)]);
    assert_eq!(avg.upper_coord_bounds(), [b(1.0), b(2.0)]);
}

#[test]
fn averaging_a_zero_total_gives_nan() {
    let a = map(1, 1, &[&[2.0]]);
    let c = map(1, 1, &[&[-2.0]]);
    let avg = average_heightmaps(&[a, c], [0, 0], [0, 0], sum, divide).unwrap();
    assert!(floats(avg.cells())[0][0].is_nan());
}

#[test]
fn averaging_lookups_beyond_a_map_fail() {
    let a = map(3, 1, &[&[1.0, 2.0], &[1.0, 2.0], &[1.0, 2.0]]);
    assert_eq!(
        average_heightmaps(&[a], [0, 0], [0, 0], sum, divide).err(),
        Some(HeightmapError::ReadOutOfRange)
    );
}

fn names(v: &[&str]) -> Vec<String> {
    v.iter().map(|s| s.to_string()).collect()
}

#[test]
fn a_test_knows_its_files() {
    let listing = names(&["pcl_t_0.txt", "hmap_t_1.txt", "conf_t.txt", "pcl_t_END.txt", "data_t.txt", "xpcl_"]);
    let a = Analyser::init(String::from("tests_dir"), String::from("t"), &listing, true);
    assert_eq!(a.test_fp(), "tests_dir/t");
    assert_eq!(a.test_name(), "t");
    assert_eq!(a.no_of_pcl(), 2);
    assert!(a.pre_trans());
    assert_eq!(a.get_hmap_cnt(&listing), 1);
    assert_eq!(a.files_with_prefix(&listing, "pcl_"), names(&["tests_dir/t/pcl_t_0.txt", "tests_dir/t/pcl_t_END.txt"]));
    assert_eq!(a.pcl_files_with_identifier(&listing, "END"), names(&["tests_dir/t/pcl_t_END.txt"]));
    assert_eq!(a.pcl_file_path(0), Ok(String::from("tests_dir/t/pcl_t_0.txt")));
    assert_eq!(a.pcl_file_path(-1), Ok(String::from("tests_dir/t/pcl_t_START.txt")));
    assert_eq!(a.pcl_file_path(-2), Ok(String::from("tests_dir/t/pcl_t_END.txt")));
    assert_eq!(a.pcl_file_path(2), Err(AnalyserError::InvalidHmapNumber));
    assert!(contains_name(&names(&["a", "t"]), &String::from("t")));
    assert!(!contains_name(&names(&["a", "tt"]), &String::from("t")));
}

#[test]
fn the_transform_flag_is_on_the_second_line() {
    let conf: Vec<char> = "robot: ur5\ntransformed: true\nother: true\n".chars().collect();
    assert!(transform_flag(&conf));
    let conf: Vec<char> = "robot: true\ntransformed: false\n".chars().collect();
    assert!(!transform_flag(&conf));
    let conf: Vec<char> = "only one line true".chars().collect();
    assert!(!transform_flag(&conf));
}

#[test]
fn the_largest_average_is_found() {
    assert_eq!(largest_average(&vec![3, 10, 1]), 10);
    assert_eq!(largest_average(&vec![4]), 4);
}

#[test]
fn the_schedule_lists_each_averaged_count() {
    let (steps, stop) = parametric_schedule(&vec![3, 2], &vec![10, 20], &vec![1, 2], None);
    assert_eq!(
        steps,
        vec![
            (0, 10, 1), (0, 10, 2), (0, 20, 1), (0, 20, 2),
            (1, 10, 1), (1, 10, 2), (1, 20, 1), (1, 20, 2),
        ]
    );
    assert_eq!(stop, None);
}

#[test]
fn the_schedule_stops_at_an_identifier_without_enough_clouds() {
    let (steps, stop) = parametric_schedule(&vec![2, 1, 5], &vec![7], &vec![2], None);
    assert_eq!(steps, vec![(0, 7, 2)]);
    assert_eq!(stop, Some(AnalyserError::NotEnoughClouds));
}

#[test]
fn the_schedule_stops_when_the_deltas_do_not_match() {
    let (steps, stop) = parametric_schedule(&vec![2, 2], &vec![7], &vec![1], Some(1));
    assert_eq!(steps, vec![]);
    assert_eq!(stop, Some(AnalyserError::DeltasMismatch));
    let (steps, stop) = parametric_schedule(&vec![0, 2], &vec![7], &vec![1], Some(1));
    assert_eq!(steps, vec![]);
    assert_eq!(stop, Some(AnalyserError::NotEnoughClouds));
    let (steps, stop) = parametric_schedule(&vec![1], &vec![7], &vec![1], Some(1));
    assert_eq!(steps, vec![(0, 7, 1)]);
    assert_eq!(stop, None);
}
