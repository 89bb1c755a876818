use rustgeomapping::aruco::{parse_aruco_output, ArucoError};

fn chars(s: &str) -> Vec<char> {
    s.chars().collect()
}

#[test]
fn markers_are_read_with_their_corners() {
    let out = "detecting\nID_COUNT:2\nMARK:[[7]]\nCORN:[[10. 20.]]\nCORN:[[30. 20.]]\nCORN:[[30. 40.]]\nCORN:[[10. 40.]]\n  MARK:[[12]]\r\nCORN:[[-1. -2.]]\nCORN:[[3. 4.]]\nCORN:[[5. 6.]]\nCORN:[[7. 8.]]\n";
    let v = parse_aruco_output(&chars(out)).unwrap();
    assert_eq!(
        v,
        vec![
            (7, [(10, 20), (30, 20), (30, 40), (10, 40)]),
            (12, [(-1, -2), (3, 4), (5, 6), (7, 8)]),
        ]
    );
}

#[test]
fn no_markers_is_an_error() {
    assert_eq!(parse_aruco_output(&chars("x\nID_COUNT:0\n")), Err(ArucoError::NoIds));
}

#[test]
fn malformed_output_is_refused() {
    assert_eq!(parse_aruco_output(&chars("only one line")), Err(ArucoError::Malformed));
    assert_eq!(parse_aruco_output(&chars("x\nID_COUNT:two\n")), Err(ArucoError::Malformed));
    assert_eq!(
        parse_aruco_output(&chars("x\nID_COUNT:1\nMARK:[[7]]\nCORN:[[1. 2.]]\n")),
        Err(ArucoError::Malformed)
    );
    assert_eq!(
        parse_aruco_output(&chars("x\nID_COUNT:1\nMARK:[[7]]\nCORN:[[1. 2.]]\nCORN:[[1 2]]\nCORN:[[1. 2.]]\nCORN:[[1. 2.]]\n")),
        Err(ArucoError::Malformed)
    );
}
