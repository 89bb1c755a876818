use std::io::BufRead;
use rustgeomapping::data_types::text::{has_infix, has_prefix, split_fields, split_lines, trim_chars};

fn chars(s: &str) -> Vec<char> {
    s.chars().collect()
}

fn strings(v: Vec<Vec<char>>) -> Vec<String> {
    v.into_iter().map(|c| c.into_iter().collect()).collect()
}

#[test]
fn fields_split_like_str_split() {
    for s in ["", "a", "a,b", ",a,,b,", "1.5,-2,NaN,"] {
        let expected: Vec<String> = s.split(',').map(|t| t.to_string()).collect();
        assert_eq!(strings(split_fields(&chars(s), ',')), expected, "{:?}", s);
    }
}

#[test]
fn lines_split_like_bufread_lines() {
    for s in ["", "a", "a\n", "a\nb", "a\r\nb\r\n", "\n\n", "x\r", "one\ntwo\r\nthree"] {
        let expected: Vec<String> = std::io::Cursor::new(s).lines().map(|l| l.unwrap()).collect();
        assert_eq!(strings(split_lines(&chars(s), 0)), expected, "{:?}", s);
    }
}

#[test]
fn trim_like_str_trim() {
    for s in ["", "   ", " a ", "\t\na b\u{3000}", "\u{a0}x\u{2028}", "abc"] {
        let t: String = trim_chars(&chars(s)).into_iter().collect();
        assert_eq!(t, s.trim(), "{:?}", s);
    }
}

#[test]
fn prefix_and_infix() {
    assert!(has_prefix(&chars("pcl_test_1.txt"), &chars("pcl_")));
    assert!(!has_prefix(&chars("hmap_pcl_"), &chars("pcl_")));
    assert!(has_infix(&chars("pcl_run_END.txt"), &chars("_END")));
    assert!(!has_infix(&chars("pcl_run_EN.txt"), &chars("_END")));
    assert!(has_infix(&chars("abc"), &chars("")));
    assert!(!has_infix(&chars("ab"), &chars("abc")));
}
