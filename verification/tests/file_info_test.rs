use rmdup::file_info::{calc_ext_prior, DuplicateGroup, FileInfo};

#[test]
fn test_file_info_creation_normal_path() {
    let file_info = FileInfo::new("test.txt", 0, 12345);
    assert_eq!(file_info.path, "test.txt");
    assert_eq!(file_info.container, None);
    assert_eq!(file_info.crc, 12345);
}

#[test]
fn test_file_info_creation_with_container() {
    let file_info = FileInfo::new("archive.zip\ttest.txt", 0, 12345);
    assert_eq!(file_info.path, "test.txt");
    assert_eq!(file_info.container, Some("archive.zip".to_string()));
    assert_eq!(file_info.crc, 12345);
}

#[test]
fn test_file_info_get_extension() {
    let file_info = FileInfo::new("test.TXT", 0, 12345);
    assert_eq!(file_info.get_extension(), Some("txt".to_string()));

    let file_info = FileInfo::new("test", 0, 12345);
    assert_eq!(file_info.get_extension(), None);
}

#[test]
fn test_duplicate_group_sorting() {
    let files = vec![
        FileInfo::new("test.txt", 0, 1),
        FileInfo::new("archive.zip\tfile.txt", 0, 2),
        FileInfo::new("data.cab\tfile.txt", 0, 3),
        FileInfo::new("other.txt", 0, 4),
    ];

    let mut group = DuplicateGroup::new(0, 0, files);
    group.sort_files();

    assert_eq!(group.files[0].container, Some("archive.zip".to_string()));
    assert_eq!(group.files[1].container, Some("data.cab".to_string()));
    assert!(group.files[2].container.is_none());
    assert!(group.files[3].container.is_none());
}

#[test]
fn test_calc_ext_prior() {
    assert_eq!(calc_ext_prior("test.zip"), 8);
    assert_eq!(calc_ext_prior("test.ZIP"), 8);
    assert_eq!(calc_ext_prior("test.Zip"), 8);
    assert_eq!(calc_ext_prior("test.cab"), 6);
    assert_eq!(calc_ext_prior("test.CAB"), 6);
    assert_eq!(calc_ext_prior("test.Cab"), 6);
    assert_eq!(calc_ext_prior("test.txt"), 0);
    assert_eq!(calc_ext_prior("test"), 0);
}

#[test]
fn file_info_with_two_tabs_keeps_first_part() {
    let f = FileInfo::new("a.zip\tb\tc", 7, 9);
    assert_eq!(f.container, None);
    assert_eq!(f.path, "a.zip");
    assert_eq!(f.crc, 9);
}

#[test]
fn file_info_empty_container_part() {
    let f = FileInfo::new("\tmember.txt", 0, 1);
    assert_eq!(f.container, Some(String::new()));
    assert_eq!(f.path, "member.txt");
}

#[test]
fn extension_follows_path_rules() {
    assert_eq!(FileInfo::new(".bashrc", 0, 0).get_extension(), None);
    assert_eq!(FileInfo::new("dir.d/file", 0, 0).get_extension(), None);
    assert_eq!(FileInfo::new("a/b.TAR.GZ", 0, 0).get_extension(), Some("gz".to_string()));
    assert_eq!(FileInfo::new("name.", 0, 0).get_extension(), Some(String::new()));
    assert_eq!(FileInfo::new("x.zip\tdir/Doc.PDF", 0, 0).get_extension(), Some("pdf".to_string()));
    assert_eq!(FileInfo::new("a/b.txt/.", 0, 0).get_extension(), Some("txt".to_string()));
    assert_eq!(FileInfo::new("a/b.txt/..", 0, 0).get_extension(), None);
}

#[test]
fn sorting_orders_paths_within_a_rank_and_is_stable() {
    let files = vec![
        FileInfo::new("b.txt", 0, 1),
        FileInfo::new("y.cab\tm", 0, 2),
        FileInfo::new("a.txt", 0, 3),
        FileInfo::new("x.ZIP\tz", 0, 4),
        FileInfo::new("x.zip\ta", 0, 5),
        FileInfo::new("a.txt", 0, 6),
        FileInfo::new("w.lzh\ta.txt", 0, 7),
    ];
    let mut group = DuplicateGroup::new(0, 0, files);
    group.sort_files();
    let crcs: Vec<u32> = group.files.iter().map(|f| f.crc).collect();
    // zip members by path, then the cabinet member, then rank 0 by path; the
    // two equal "a.txt" entries keep their order.
    assert_eq!(crcs, vec![5, 4, 2, 3, 6, 7, 1]);
}

#[test]
fn sorting_an_empty_group() {
    let mut group = DuplicateGroup::new(0, 0, Vec::new());
    group.sort_files();
    assert!(group.files.is_empty());
}
