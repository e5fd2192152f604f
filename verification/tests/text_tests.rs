use sbpm::num::{decimal_of, parse_u32};
use sbpm::text::{chars_of, content_lines_of, join_path, str_lt};

fn parse(s: &str) -> Option<u32> {
    parse_u32(&chars_of(s))
}

#[test]
fn parse_u32_like_std() {
    for s in ["0", "7", "+7", "007", "4294967295", "4294967296", "", "+", "-1", "1 ", " 1", "++1", "1a"] {
        assert_eq!(parse(s), s.parse::<u32>().ok(), "input {:?}", s);
    }
}

#[test]
fn decimal_text() {
    assert_eq!(decimal_of(0).iter().collect::<String>(), "0");
    assert_eq!(decimal_of(10).iter().collect::<String>(), "10");
    assert_eq!(decimal_of(4294967295).iter().collect::<String>(), "4294967295");
}

#[test]
fn lines_like_std() {
    for s in ["", "a", "a\n", "a\r\nb", "\n\n", " x \r\n\r\ny\r", "a\rb\n"] {
        let expected: Vec<String> =
            s.lines().map(|l| l.trim().to_string()).filter(|l| !l.is_empty()).collect();
        assert_eq!(content_lines_of(s), expected, "input {:?}", s);
    }
}

#[test]
fn unicode_white_space_is_trimmed() {
    assert_eq!(content_lines_of("\u{3000}vim\u{a0}\n\u{2003}\n"), vec!["vim".to_string()]);
}

#[test]
fn order_like_std() {
    let words = ["", "a", "b", "ab", "B", "é", "z", "zz"];
    for x in words {
        for y in words {
            assert_eq!(str_lt(x, y), x < y, "{:?} < {:?}", x, y);
        }
    }
}

#[test]
fn path_join_like_std() {
    for (b, p) in [("/a", "b"), ("/a/", "b"), ("", "b"), ("/a", "/b"), ("/a", "")] {
        let expected = std::path::Path::new(b).join(p).to_string_lossy().to_string();
        assert_eq!(join_path(b, p), expected, "{:?} join {:?}", b, p);
    }
}
