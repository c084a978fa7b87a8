use rmdup::archiver::ArchiveKind;
use rmdup::dir::{backup_file, classify_entry, crc, remove, remove_in_archive, CrcSource, ScanAction};

#[test]
fn classify_scan_entries() {
    assert_eq!(classify_entry("/d/sub", true), ScanAction::Descend);
    assert_eq!(classify_entry("/d/.rmdup", true), ScanAction::Skip);
    assert_eq!(classify_entry("/d/x.ZIP", false), ScanAction::Archive(ArchiveKind::Zip));
    assert_eq!(classify_entry("/d/x.cab", false), ScanAction::Archive(ArchiveKind::Cabinet));
    assert_eq!(classify_entry("/d/x.txt", false), ScanAction::Plain);
    assert_eq!(classify_entry("/d/x.zip", true), ScanAction::Descend);
}

#[test]
fn crc_sources() {
    match crc("/d/plain.txt") {
        CrcSource::File(p) => assert_eq!(p, "/d/plain.txt"),
        other => panic!("{:?}", other),
    }
    match crc("/d/a.LZH\tdir/f.txt") {
        CrcSource::Member(k, c, p) => {
            assert_eq!(k, ArchiveKind::Lzh);
            assert_eq!(c, "/d/a.LZH");
            assert_eq!(p, "dir/f.txt");
        },
        other => panic!("{:?}", other),
    }
    match crc("/d/a.7z\tf") {
        CrcSource::Unsupported => {},
        other => panic!("{:?}", other),
    }
}

#[test]
fn removals_from_entries() {
    assert!(remove("/d/plain.txt").is_none());
    let r = remove("/d/a.zip\tf.txt").unwrap();
    assert_eq!(r.kind, ArchiveKind::Zip);
    assert_eq!(r.container, "/d/a.zip");
    assert_eq!(r.files, vec!["f.txt".to_string()]);
    let r = remove("/d/a.cab\tf.txt").unwrap();
    assert_eq!(r.kind, ArchiveKind::Cabinet);
    assert!(remove("/d/a.rar\tf.txt").is_none());
    assert!(remove("/d/a.lzh\tf.txt").is_none());
}

#[test]
fn removals_in_archives() {
    let r = remove_in_archive("/d/a.rar", vec!["x".to_string(), "y".to_string()]).unwrap();
    assert_eq!(r.kind, ArchiveKind::Rar);
    assert_eq!(r.container, "/d/a.rar");
    assert_eq!(r.files, vec!["x".to_string(), "y".to_string()]);
    assert!(remove_in_archive("/d/a.tar", vec![]).is_none());
}

#[test]
fn backup_of_a_file() {
    let plan = backup_file("/h/d/f.txt", "20240102_030405", "/h").unwrap();
    assert_eq!(plan.backup, "/h/.rmdup/20240102_030405/d/f.txt");
    assert_eq!(plan.tmp, "/h/d/f.txt.tmp.20240102_030405");
}
