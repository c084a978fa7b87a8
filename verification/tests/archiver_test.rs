use std::collections::HashMap;

use rmdup::archiver::rar::{is_volume_of, volume_pattern, ListingError, RarListing, scan_member};
use rmdup::archiver::{
    archive_kind, backup_plan, home_pattern, member_key, plan_removal, push_map_len, record_members,
    resolve_home_dir, resolve_tmp_path, to_utf8, ArchiveKind, Crc32, CrcTable, MemberAction, MemberEntry,
};
use rmdup::file_info::FileInfo;

#[test]
fn push_map_len_appends_per_length() {
    let mut map_len: HashMap<u64, Vec<String>> = HashMap::new();
    push_map_len(&mut map_len, 3, "a");
    push_map_len(&mut map_len, 6, "b");
    push_map_len(&mut map_len, 3, "c");
    assert_eq!(map_len.len(), 2);
    assert_eq!(map_len.get(&3).unwrap(), &vec!["a".to_string(), "c".to_string()]);
    assert_eq!(map_len.get(&6).unwrap(), &vec!["b".to_string()]);
}

fn entry_total(map_len: &HashMap<u64, Vec<String>>) -> usize {
    map_len.values().map(|v| v.len()).sum()
}

#[test]
fn tables_only_grow_at_the_end() {
    let mut map_len: HashMap<u64, Vec<String>> = HashMap::new();
    push_map_len(&mut map_len, 3, "/d/a");
    push_map_len(&mut map_len, 3, "/d/b");
    let before = map_len.clone();
    let total = entry_total(&map_len);
    push_map_len(&mut map_len, 9, "/d/c");
    assert_eq!(entry_total(&map_len), total + 1);
    let members = vec![
        MemberEntry { name: "x".to_string(), size: 3, crc: Some(1), included: true },
        MemberEntry { name: "y".to_string(), size: 9, crc: None, included: false },
        MemberEntry { name: "z".to_string(), size: 12, crc: None, included: true },
    ];
    record_members(&mut map_len, "/d/e.zip", &members);
    assert_eq!(entry_total(&map_len), total + 3);
    for (k, v) in before.iter() {
        let now = map_len.get(k).unwrap();
        assert_eq!(&now[..v.len()], &v[..]);
    }
    assert!(map_len.values().all(|v| !v.is_empty()));
}

#[test]
fn tmp_path_format() {
    assert_eq!(resolve_tmp_path("/d/a.zip", "20240102_030405"), "/d/a.zip.tmp.20240102_030405");
    assert_eq!(resolve_tmp_path("", ""), ".tmp.");
}

#[test]
fn member_key_is_read_back_by_file_info() {
    let key = member_key("/d/a.zip", "dir/first.txt");
    assert_eq!(key, "/d/a.zip\tdir/first.txt");
    let f = FileInfo::new(&key, 0, 1);
    assert_eq!(f.container, Some("/d/a.zip".to_string()));
    assert_eq!(f.path, "dir/first.txt");
}

#[test]
fn record_members_adds_included_members() {
    let mut map_len: HashMap<u64, Vec<String>> = HashMap::new();
    push_map_len(&mut map_len, 3, "/d/plain");
    let members = vec![
        MemberEntry { name: "a.txt".to_string(), size: 3, crc: Some(11), included: true },
        MemberEntry { name: "dir/".to_string(), size: 0, crc: Some(0), included: false },
        MemberEntry { name: "b.txt".to_string(), size: 6, crc: None, included: true },
    ];
    let crcs = record_members(&mut map_len, "/d/x.zip", &members);
    assert_eq!(map_len.get(&3).unwrap(), &vec!["/d/plain".to_string(), "/d/x.zip\ta.txt".to_string()]);
    assert_eq!(map_len.get(&6).unwrap(), &vec!["/d/x.zip\tb.txt".to_string()]);
    assert!(map_len.get(&0).is_none());
    assert_eq!(crcs, vec![("/d/x.zip\ta.txt".to_string(), 11)]);
}

#[test]
fn archive_kinds_by_extension() {
    assert_eq!(archive_kind("a.CAB"), Some(ArchiveKind::Cabinet));
    assert_eq!(archive_kind("a.zip"), Some(ArchiveKind::Zip));
    assert_eq!(archive_kind("a.Lzh"), Some(ArchiveKind::Lzh));
    assert_eq!(archive_kind("/x/y.RAR"), Some(ArchiveKind::Rar));
    assert_eq!(archive_kind("a.zip.txt"), None);
    assert_eq!(archive_kind("zip"), None);
}

#[test]
fn plan_removal_marks_members() {
    let members = vec![
        ("first.txt".to_string(), true),
        ("second.txt".to_string(), true),
        ("odd".to_string(), false),
    ];
    let (actions, empty) = plan_removal(&members, &vec!["first.txt".to_string()]);
    assert_eq!(actions, vec![MemberAction::Remove, MemberAction::Keep, MemberAction::Skip]);
    assert!(!empty);
    let (actions, empty) =
        plan_removal(&members, &vec!["first.txt".to_string(), "second.txt".to_string()]);
    assert_eq!(actions, vec![MemberAction::Remove, MemberAction::Remove, MemberAction::Skip]);
    assert!(empty);
}

#[test]
fn to_utf8_decodes_utf8_and_shift_jis() {
    assert_eq!(to_utf8("ディレクトリ/a.txt".as_bytes()), "ディレクトリ/a.txt");
    // "テスト" in Shift_JIS
    assert_eq!(to_utf8(&[0x83, 0x65, 0x83, 0x58, 0x83, 0x67]), "テスト");
    assert_eq!(to_utf8(b"plain.txt"), "plain.txt");
}

#[test]
fn crc32_of_check_string_in_chunks() {
    let mut whole = Crc32::new();
    whole.update(b"123456789");
    assert_eq!(whole.finalize(), 0xCBF4_3926);

    let mut parts = Crc32::new();
    parts.update(b"1234");
    parts.update(b"");
    parts.update(b"56789");
    assert_eq!(parts.finalize(), 0xCBF4_3926);

    assert_eq!(Crc32::new().finalize(), 0);
}

#[test]
fn home_dir_resolution() {
    assert_eq!(resolve_home_dir(Some("/home/u//"), "/tmp"), "/home/u");
    assert_eq!(resolve_home_dir(Some("/home/u"), "/tmp"), "/home/u");
    assert_eq!(resolve_home_dir(Some("///"), "/tmp"), "");
    assert_eq!(resolve_home_dir(None, "/tmp/"), "/tmp/");
}

#[test]
fn backup_plan_under_and_outside_home() {
    let re = home_pattern("/home/u").unwrap();
    let plan = backup_plan("/home/u/docs/a.zip", "20240102_030405", "/home/u", &re);
    assert_eq!(plan.backup, "/home/u/.rmdup/20240102_030405/docs/a.zip");
    assert_eq!(plan.tmp, "/home/u/docs/a.zip.tmp.20240102_030405");

    let plan = backup_plan("/other/a.zip", "N", "/home/u", &re);
    assert_eq!(plan.backup, "/home/u/.rmdup/N/other/a.zip");

    // the prefix must be at the start
    let plan = backup_plan("/x/home/u/a", "N", "/home/u", &re);
    assert_eq!(plan.backup, "/home/u/.rmdup/N/x/home/u/a");
}

#[test]
fn backup_plan_with_meta_characters_in_home() {
    let home = "/tmp/a+b (c)";
    let re = home_pattern(home).unwrap();
    assert_eq!(re.as_str(), "^/tmp/a\\+b \\(c\\)");
    let plan = backup_plan("/tmp/a+b (c)/f", "N", home, &re);
    assert_eq!(plan.backup, "/tmp/a+b (c)/.rmdup/N/f");
    let plan = backup_plan("/tmp/aab (c)/f", "N", home, &re);
    assert_eq!(plan.backup, "/tmp/a+b (c)/.rmdup/N/tmp/aab (c)/f");
}

fn feed_all(listing: &mut RarListing, text: &str) -> Result<Vec<(String, bool, u64, u32)>, ListingError> {
    let mut out = Vec::new();
    for line in text.lines() {
        assert!(listing.line_admissible(line));
        if let Some(e) = listing.feed(line)? {
            out.push((e.name, e.is_file, e.size, e.crc));
        }
    }
    Ok(out)
}

const LISTING: &str = "\
RAR 7.00   Copyright (c) 1993-2024 Alexander Roshal

Archive: /d/test.rar
Details: RAR 5

        Name: first.txt
        Type: File
        Size: 6
 Packed size: 6
       CRC32: 1F4B1A2C

        Name: dir
        Type: Directory

        Name: dir/second.txt
        Type: File
        Size: 3
       CRC32: ff

";

#[test]
fn rar_listing_entries_with_numbers() {
    let mut listing = RarListing::new(true);
    let entries = feed_all(&mut listing, LISTING).unwrap();
    assert_eq!(
        entries,
        vec![
            ("first.txt".to_string(), true, 6, 0x1F4B1A2C),
            ("dir".to_string(), false, 0, 0),
            ("dir/second.txt".to_string(), true, 3, 255),
        ]
    );
}

#[test]
fn rar_listing_without_numbers_ignores_sizes() {
    let mut listing = RarListing::new(false);
    let entries = feed_all(&mut listing, LISTING).unwrap();
    assert_eq!(entries.len(), 3);
    assert_eq!(entries[0], ("first.txt".to_string(), true, 0, 0));
    let mut listing = RarListing::new(false);
    assert!(feed_all(&mut listing, "Name: a\nSize: x\n\n").is_ok());
}

#[test]
fn rar_listing_errors() {
    let mut listing = RarListing::new(true);
    assert_eq!(feed_all(&mut listing, "Name: a\nSize: 12x\n"), Err(ListingError::Size));
    let mut listing = RarListing::new(true);
    assert_eq!(feed_all(&mut listing, "Name: a\nCRC32: 1ffffffff\n"), Err(ListingError::Crc));
    let mut listing = RarListing::new(true);
    assert_eq!(feed_all(&mut listing, "Name: a\nSize: 18446744073709551616\n"), Err(ListingError::Size));
    let mut listing = RarListing::new(true);
    assert_eq!(feed_all(&mut listing, "Size: +7\n").unwrap(), vec![]);
    assert_eq!(listing.size, 7);
}

#[test]
fn rar_listing_line_admissibility() {
    let listing = RarListing::new(true);
    assert!(!listing.line_admissible("Name:"));
    assert!(!listing.line_admissible("  Name:é"));
    assert!(listing.line_admissible("Name: é"));
    assert!(!listing.line_admissible("CRC32:"));
    assert!(listing.line_admissible("Packed size: 6"));
    let listing = RarListing::new(false);
    assert!(listing.line_admissible("Size:"));
}

#[test]
fn rar_scan_member_needs_file_and_crc() {
    let m = scan_member(rmdup::archiver::rar::RarEntry { name: "a".to_string(), is_file: true, size: 3, crc: 7 });
    assert!(m.included);
    assert_eq!(m.crc, Some(7));
    let m = scan_member(rmdup::archiver::rar::RarEntry { name: "a".to_string(), is_file: true, size: 3, crc: 0 });
    assert!(!m.included);
    let m = scan_member(rmdup::archiver::rar::RarEntry { name: "a".to_string(), is_file: false, size: 3, crc: 7 });
    assert!(!m.included);
}

#[test]
fn rar_volumes() {
    let vol = volume_pattern().unwrap();
    assert!(is_volume_of("/d/x.rar", "/d/x.r00", &vol));
    assert!(is_volume_of("/d/x.rar", "/d/x.r17", &vol));
    assert!(!is_volume_of("/d/x.rar", "/d/x.rar", &vol));
    assert!(!is_volume_of("/d/x.rar", "/d/y.r00", &vol));
    assert!(!is_volume_of("/d/x.rar", "/d/x.r0", &vol));
    assert!(!is_volume_of("/d/x.rar", "/d/x", &vol));
}

#[test]
fn crc_table_keeps_entries_and_takes_the_last_crc() {
    let mut table = CrcTable::new();
    assert_eq!(table.get("/d/a.zip\tx"), None);
    table.record(vec![("/d/a.zip\tx".to_string(), 1), ("/d/a.zip\ty".to_string(), 2)]);
    table.record(vec![("/d/b.zip\tz".to_string(), 3), ("/d/a.zip\tx".to_string(), 4)]);
    table.record(Vec::new());
    assert_eq!(table.get("/d/a.zip\tx"), Some(4));
    assert_eq!(table.get("/d/a.zip\ty"), Some(2));
    assert_eq!(table.get("/d/b.zip\tz"), Some(3));
    assert_eq!(table.get("/d/b.zip\tq"), None);
}
