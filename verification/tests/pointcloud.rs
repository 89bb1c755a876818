use chrono::{DateTime, Utc};
use rustgeomapping::data_types::pointcloud::{pcl_file_parts, txt_stem, PointCloud, PointCloudError};

fn p(x: f32, y: f32, z: f32) -> [u32; 3] {
    [x.to_bits(), y.to_bits(), z.to_bits()]
}

fn fb(v: [u32; 6]) -> [f32; 6] {
    v.map(f32::from_bits)
}

#[test]
fn bounds_follow_the_points() {
    let c = PointCloud::create_from_list(vec![p(1.0, 5.0, -1.0), p(3.0, 2.0, 0.0), p(-2.0, 4.0, 7.0)]);
    assert_eq!(c.size(), 3);
    assert_eq!(fb(c.bounds()), [-2.0, 3.0, 2.0, 5.0, -1.0, 7.0]);
    assert!(c.filename().is_none());
}

#[test]
fn bounds_are_the_rectangular_bounds() {
    let c = PointCloud::create_from_list(vec![p(1.0, 1.0, 1.0)]);
    assert_eq!(fb(c.bounds()), [1.0; 6]);
    let c = PointCloud::create_from_list(vec![p(1.0, 2.0, 3.0), p(4.0, 5.0, 6.0)]);
    assert_eq!(fb(c.bounds()), [1.0, 4.0, 2.0, 5.0, 3.0, 6.0]);
    let c = PointCloud::create_from_list(vec![p(f32::NAN, 2.0, 3.0), p(4.0, 5.0, 6.0)]);
    assert_eq!(fb(c.bounds()), [4.0, 4.0, 2.0, 5.0, 3.0, 6.0]);
    let e = PointCloud::create_from_iter(vec![]).unwrap();
    assert_eq!(fb(e.bounds()), [9999.0, -9999.0, 9999.0, -9999.0, 9999.0, -9999.0]);
}

#[test]
fn an_empty_cloud_has_no_points() {
    let c = PointCloud::new();
    assert_eq!(c.size(), 0);
    assert!(c.points().is_empty());
    assert_eq!(c.bounds(), [0; 6]);
}

#[test]
fn cropping_keeps_the_points_in_the_box() {
    let mut c = PointCloud::create_from_list(vec![p(0.0, 0.0, 0.0), p(1.0, 1.0, 1.0), p(2.0, 0.5, 0.5), p(0.5, 0.5, f32::NAN)]);
    c.crop(0.0f32.to_bits(), 1.0f32.to_bits(), 0.0f32.to_bits(), 1.0f32.to_bits(), 0.0f32.to_bits(), 1.0f32.to_bits());
    assert_eq!(c.points(), vec![p(0.0, 0.0, 0.0), p(1.0, 1.0, 1.0), p(0.5, 0.5, f32::NAN)]);
    assert_eq!(c.size(), 3);
}

#[test]
fn combining_appends_and_widens() {
    let mut a = PointCloud::create_from_list(vec![p(0.0, 0.0, 0.0), p(1.0, 1.0, 1.0)]);
    let c = PointCloud::create_from_list(vec![p(-1.0, 2.0, 0.5), p(0.5, 3.0, 0.25)]);
    let ta = a.timestamp();
    let (ab, cb) = (fb(a.bounds()), fb(c.bounds()));
    a.combine(c);
    assert_eq!(a.size(), 4);
    assert_eq!(a.points()[2], p(-1.0, 2.0, 0.5));
    assert_eq!(a.timestamp(), ta);
    let nb = fb(a.bounds());
    assert_eq!(nb[0], ab[0].min(cb[0]));
    assert_eq!(nb[1], ab[1].max(cb[1]));
    assert_eq!(nb[3], ab[3].max(cb[3]));
}

#[test]
fn decimation_removes_every_nth_point() {
    let pts: Vec<[u32; 3]> = (0..10).map(|i| p(i as f32, 0.0, 0.0)).collect();
    let mut c = PointCloud::create_from_list(pts.clone());
    c.decimation_filter(3);
    let kept: Vec<[u32; 3]> = pts.iter().enumerate().filter(|(i, _)| i % 3 != 0).map(|(_, q)| *q).collect();
    assert_eq!(c.points(), kept);
    assert_eq!(c.size(), 6);
    let mut d = PointCloud::create_from_list(pts);
    d.decimation_filter(-2);
    assert_eq!(d.size(), 5);
}

#[test]
fn clouds_loaded_from_end_files_are_ends() {
    let c = PointCloud::create_loaded(vec![p(1.0, 2.0, 3.0)], PointCloud::new().timestamp(), String::from("dir/pcl_run_END"));
    assert!(c.is_end());
    assert_eq!(c.filename(), Some(String::from("dir/pcl_run_END")));
    let d = PointCloud::create_loaded(vec![], PointCloud::new().timestamp(), String::from("dir/pcl_run_3"));
    assert!(!d.is_end());
    assert!(!PointCloud::new().is_end());
}

#[test]
fn only_txt_paths_have_a_stem() {
    assert_eq!(txt_stem(&String::from("a/b.txt")), Some(String::from("a/b")));
    assert_eq!(txt_stem(&String::from(".txt")), Some(String::new()));
    assert_eq!(txt_stem(&String::from("a/b.csv")), None);
    assert_eq!(txt_stem(&String::from("txt")), None);
}

#[test]
fn point_cloud_text_splits_into_time_and_points() {
    let line = "2024-01-02T03:04:05Z";
    let text: Vec<char> = format!("{}\n1,2,3\n4.5,-6,7\n", line).chars().collect();
    let expected = format!("{}\n", line).parse::<DateTime<Utc>>();
    match pcl_file_parts(&text) {
        Ok((t, rows)) => {
            let e = expected.unwrap();
            assert_eq!((t.secs, t.nanos), (e.timestamp(), e.timestamp_subsec_nanos()));
            let rows: Vec<Vec<String>> = rows.iter().map(|r| r.iter().map(|c| c.iter().collect()).collect()).collect();
            assert_eq!(rows, vec![vec!["1", "2", "3"], vec!["4.5", "-6", "7"]]);
        }
        Err(e) => {
            assert!(expected.is_err());
            assert_eq!(e, PointCloudError::BadTimestamp);
        }
    }
    let bad: Vec<char> = "not a time\n1,2,3\n".chars().collect();
    assert_eq!(pcl_file_parts(&bad).err(), Some(PointCloudError::BadTimestamp));
}

#[test]
fn a_mapped_cloud_keeps_its_bounds_until_updated() {
    let mut c = PointCloud::create_from_list(vec![p(1.0, 1.0, 1.0), p(2.0, 2.0, 2.0)]);
    c.map_points(|q: [u32; 3]| q.map(|v| (f32::from_bits(v) * 2.0).to_bits()));
    assert_eq!(c.points(), vec![p(2.0, 2.0, 2.0), p(4.0, 4.0, 4.0)]);
    assert_eq!(fb(c.bounds())[1], 2.0);
    c.update_bounds();
    assert_eq!(fb(c.bounds())[1], 4.0);
    c.map_bounds(|q: [u32; 6]| q.map(|v| (f32::from_bits(v) + 1.0).to_bits()));
    assert_eq!(fb(c.bounds())[1], 5.0);
}

#[test]
fn cropping_twice_to_one_box_is_cropping_once() {
    let mut c = PointCloud::create_from_list(vec![p(0.0, 0.0, 0.0), p(3.0, 1.0, 1.0), p(0.5, 0.5, 0.5), p(-1.0, 0.5, 0.5)]);
    let lim = [0.0f32.to_bits(), 1.0f32.to_bits(), 0.0f32.to_bits(), 1.0f32.to_bits(), 0.0f32.to_bits(), 1.0f32.to_bits()];
    c.crop(lim[0], lim[1], lim[2], lim[3], lim[4], lim[5]);
    let once = c.points();
    c.crop(lim[0], lim[1], lim[2], lim[3], lim[4], lim[5]);
    assert_eq!(c.points(), once);
    assert_eq!(c.size(), 2);
}

#[test]
fn decimating_by_one_removes_every_point() {
    let pts: Vec<[u32; 3]> = (0..7).map(|i| p(i as f32, 1.0, 2.0)).collect();
    let mut c = PointCloud::create_from_list(pts);
    c.decimation_filter(1);
    assert_eq!(c.size(), 0);
    assert!(c.points().is_empty());
}

#[test]
fn decimation_keeps_length_minus_ceiling_of_length_over_n() {
    for n in [2i32, 3, 4, -5, 11] {
        for len in 0..13usize {
            let pts: Vec<[u32; 3]> = (0..len).map(|i| p(i as f32, 0.0, 0.0)).collect();
            let mut c = PointCloud::create_from_list(pts);
            c.decimation_filter(n);
            let m = n.unsigned_abs() as usize;
            assert_eq!(c.size(), len - (len + m - 1) / m, "n = {}, len = {}", n, len);
        }
    }
}

#[test]
fn decimating_an_empty_cloud_by_zero_leaves_it_empty() {
    let mut c = PointCloud::create_from_list(vec![]);
    c.decimation_filter(0);
    assert_eq!(c.size(), 0);
}

#[test]
fn a_new_cloud_is_stamped_after_1970() {
    let c = PointCloud::new();
    let t = c.timestamp();
    assert!(t.secs > 0 && t.nanos < 1_000_000_000);
}
