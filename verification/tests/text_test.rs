use rmdup::file_info::{path_less, DuplicateGroup, FileInfo};
use rmdup::path::{extension_of, file_name_of, file_stem_of, path_ends_with_of};
use rmdup::text::{ends_with, parse_number_str, split_char, starts_with, str_eq, trim_str, vec_contains};

#[test]
fn split_like_str_split() {
    assert_eq!(split_char("a\tb\t\tc", '\t'), vec!["a", "b", "", "c"]);
    assert_eq!(split_char("", '\t'), vec![""]);
    assert_eq!(split_char("\t", '\t'), vec!["", ""]);
    assert_eq!(split_char("abc", '\t'), vec!["abc"]);
}

#[test]
fn trim_like_str_trim() {
    assert_eq!(trim_str("  a b \r"), "a b");
    assert_eq!(trim_str("\u{3000}x\u{a0}"), "x");
    assert_eq!(trim_str(" \t\n "), "");
    assert_eq!(trim_str("x"), "x");
}

#[test]
fn prefixes_and_suffixes() {
    assert!(starts_with("Name: a", "Name:"));
    assert!(!starts_with("Nam", "Name:"));
    assert!(ends_with("a.zip", ".zip"));
    assert!(!ends_with("a.zi", ".zip"));
    assert!(ends_with("x", ""));
    assert!(str_eq("File", "File"));
    assert!(!str_eq("File", "Files"));
    assert!(vec_contains(&vec!["a".to_string(), "b".to_string()], "b"));
    assert!(!vec_contains(&vec![], "b"));
}

#[test]
fn numbers_like_from_str_radix() {
    assert_eq!(parse_number_str("12", 10, u64::MAX), Some(12));
    assert_eq!(parse_number_str("+12", 10, u64::MAX), Some(12));
    assert_eq!(parse_number_str("-1", 10, u64::MAX), None);
    assert_eq!(parse_number_str("", 10, u64::MAX), None);
    assert_eq!(parse_number_str("+", 10, u64::MAX), None);
    assert_eq!(parse_number_str(" 1", 10, u64::MAX), None);
    assert_eq!(parse_number_str("18446744073709551615", 10, u64::MAX), Some(u64::MAX));
    assert_eq!(parse_number_str("18446744073709551616", 10, u64::MAX), None);
    assert_eq!(parse_number_str("DeadBeef", 16, u32::MAX as u64), Some(0xDEAD_BEEF));
    assert_eq!(parse_number_str("100000000", 16, u32::MAX as u64), None);
    assert_eq!(parse_number_str("0g", 16, u32::MAX as u64), None);
    assert_eq!(parse_number_str("٣", 10, u64::MAX), None);
}

#[test]
fn path_parts_like_std_path() {
    assert_eq!(file_name_of("/a/b.tar.gz"), Some("b.tar.gz".to_string()));
    assert_eq!(file_name_of("/a/b/"), Some("b".to_string()));
    assert_eq!(file_name_of("/"), None);
    assert_eq!(file_name_of("."), None);
    assert_eq!(file_name_of("a/.."), None);
    assert_eq!(extension_of("/a/b.tar.gz"), Some("gz".to_string()));
    assert_eq!(extension_of("/a/.hidden"), None);
    assert_eq!(file_stem_of("/a/b.tar.gz"), Some("b.tar".to_string()));
    assert_eq!(file_stem_of("/a/.hidden"), Some(".hidden".to_string()));
    assert_eq!(file_stem_of("/a/noext"), Some("noext".to_string()));
    for p in ["/a/b.tar.gz", "a/.", "./x.y", "..", "x/../y.z", "a//b.c", "", "/", "a.b/", ".x.y"] {
        let std = std::path::Path::new(p);
        assert_eq!(file_name_of(p).as_deref(), std.file_name().and_then(|s| s.to_str()), "{}", p);
        assert_eq!(extension_of(p).as_deref(), std.extension().and_then(|s| s.to_str()), "{}", p);
        assert_eq!(file_stem_of(p).as_deref(), std.file_stem().and_then(|s| s.to_str()), "{}", p);
    }
}

#[test]
fn path_order_like_str_order() {
    for (a, b) in [("a", "b"), ("a", "ab"), ("", "a"), ("b", "a"), ("x", "x"), ("é", "z"), ("Z", "a")] {
        assert_eq!(path_less(a, b), a < b, "{} {}", a, b);
    }
}

#[test]
fn sorting_twice_changes_nothing() {
    let make = || {
        vec![
            FileInfo::new("q.txt", 0, 1),
            FileInfo::new("k.cab\tm", 0, 2),
            FileInfo::new("k.zip\tm", 0, 3),
            FileInfo::new("a.txt", 0, 4),
        ]
    };
    let mut once = DuplicateGroup::new(0, 0, make());
    once.sort_files();
    let first: Vec<u32> = once.files.iter().map(|f| f.crc).collect();
    once.sort_files();
    let second: Vec<u32> = once.files.iter().map(|f| f.crc).collect();
    assert_eq!(first, vec![3, 2, 4, 1]);
    assert_eq!(first, second);
}

#[test]
fn path_suffix_by_components() {
    assert!(path_ends_with_of("dir/sub/a.txt", "sub/a.txt"));
    assert!(path_ends_with_of("dir/sub/a.txt", "a.txt"));
    assert!(!path_ends_with_of("dir/xa.txt", "a.txt"));
    assert!(!path_ends_with_of("dir/sub/a.txt", "b/a.txt"));
    assert!(path_ends_with_of("/a/b", "/a/b"));
    assert!(!path_ends_with_of("/a/b", "/b"));
    assert!(path_ends_with_of("a/./b//", "a/b"));
    assert!(path_ends_with_of("./a", "a"));
    assert!(!path_ends_with_of("a", "./a"));
    assert!(path_ends_with_of("a/b", ""));
    assert!(!path_ends_with_of("a", "b/a"));
    for (p, c) in [("dir/sub/a.txt", "sub/a.txt"), ("/a/b", "/b"), ("a/./b//", "a/b"), ("./a", "a"), ("a", "./a"), ("a/../b", "../b")] {
        assert_eq!(path_ends_with_of(p, c), std::path::Path::new(p).ends_with(c));
    }
}
