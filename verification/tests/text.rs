use lithos_tree::path::{file_name, path_names, same_path};
use lithos_tree::text::{
    parse_i32, push_decimal, push_decimal_i32, splitn, starts_with, strip_suffix, trim,
};

#[test]
fn parses_numbers() {
    assert_eq!(parse_i32("0"), Some(0));
    assert_eq!(parse_i32("+12"), Some(12));
    assert_eq!(parse_i32("-12"), Some(-12));
    assert_eq!(parse_i32("007"), Some(7));
    assert_eq!(parse_i32("2147483647"), Some(i32::MAX));
    assert_eq!(parse_i32("-2147483648"), Some(i32::MIN));
    for text in ["", "+", "-", "12a", " 1", "1 ", "2147483648", "-2147483649", "99999999999999"] {
        assert_eq!(parse_i32(text), None, "{:?}", text);
        assert!(text.parse::<i32>().is_err());
    }
}

#[test]
fn written_numbers_read_back() {
    for n in [0, 7, 10, 4711, -1, -90, i32::MAX, i32::MIN] {
        let mut text = String::from(">");
        push_decimal_i32(&mut text, n);
        assert_eq!(text, format!(">{}", n));
        assert_eq!(parse_i32(&text[1..]), Some(n));
    }
    let mut text = String::new();
    push_decimal(&mut text, u64::MAX);
    assert_eq!(text, "18446744073709551615");
}

#[test]
fn trims_and_cuts() {
    assert_eq!(trim(" \t12\u{3000}\n"), "12");
    assert_eq!(trim("\n "), "");
    assert_eq!(trim("a b"), "a b");
    assert!(starts_with("cmd.x", "cmd."));
    assert!(!starts_with("cmd", "cmd."));
    assert_eq!(strip_suffix("web.yaml", ".yaml"), Some("web".to_string()));
    assert_eq!(strip_suffix("web.yml", ".yaml"), None);
    assert_eq!(strip_suffix(".yaml", ".yaml"), Some(String::new()));
}

#[test]
fn trims_what_std_trims() {
    for n in 0..0x3100u32 {
        if let Some(c) = char::from_u32(n) {
            let text = format!("{}x{}", c, c);
            assert_eq!(trim(&text), text.trim(), "{:x}", n);
        }
    }
}

#[test]
fn splits_at_the_first_separators() {
    assert_eq!(splitn("a:b:c", 2, ':'), ["a", "b:c"]);
    assert_eq!(splitn("a:b:c", 8, ':'), ["a", "b", "c"]);
    assert_eq!(splitn("a:", 8, ':'), ["a", ""]);
    assert_eq!(splitn("", 3, ':'), [""]);
    assert_eq!(splitn("a:b", 1, ':'), ["a:b"]);
}

#[test]
fn paths_agree_with_std() {
    let paths = [
        "", ".", "..", "/", "//", "/.", "./", "./a", "a", "a/", "a/.", "a//b", "a/./b", "/a/b",
        "/a/b/", "/a/../b", "a/..", "../a", ".a", "..a", "./.", "lithos_knot", "/bin/lithos_knot",
    ];
    for a in paths {
        let expected = std::path::Path::new(a).file_name().and_then(|x| x.to_str());
        assert_eq!(file_name(a).as_deref(), expected, "{:?}", a);
        for b in paths {
            let expected = std::path::Path::new(a) == std::path::Path::new(b);
            assert_eq!(same_path(a, b), expected, "{:?} {:?}", a, b);
        }
    }
    assert_eq!(path_names("/usr//local/./bin/"), ["usr", "local", "bin"]);
}
