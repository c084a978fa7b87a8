use rmdup::dedup::{add_archive_removal, containers_to_move, group_by_crc, resolve_duplicates, resolve_group, ArchiveFiles};
use rmdup::file_info::{DuplicateGroup, FileInfo};

#[test]
fn grouping_by_crc_keeps_order() {
    let files = vec![
        FileInfo::new("a", 0, 1),
        FileInfo::new("b", 0, 2),
        FileInfo::new("c", 0, 1),
        FileInfo::new("d", 0, 3),
        FileInfo::new("e", 0, 1),
    ];
    let groups = group_by_crc(files);
    assert_eq!(groups.len(), 3);
    let one = groups.iter().find(|g| g.crc == 1).unwrap();
    let paths: Vec<&str> = one.files.iter().map(|f| f.path.as_str()).collect();
    assert_eq!(paths, vec!["a", "c", "e"]);
    assert_eq!(groups.iter().find(|g| g.crc == 2).unwrap().files.len(), 1);
    assert!(group_by_crc(Vec::new()).is_empty());
}

#[test]
fn resolving_keeps_the_lowest_ranked_file() {
    let files = vec![
        FileInfo::new("/d/b.txt", 0, 1),
        FileInfo::new("/d/a.zip\tx.txt", 0, 1),
        FileInfo::new("/d/a.txt", 0, 1),
        FileInfo::new("/d/c.cab\tx.txt", 0, 1),
    ];
    let r = resolve_group(DuplicateGroup::new(0, 1, files));
    assert_eq!(r.keep.path, "/d/b.txt");
    assert!(r.keep.container.is_none());
    let removed: Vec<(Option<String>, String)> =
        r.remove.iter().map(|f| (f.container.clone(), f.path.clone())).collect();
    assert_eq!(
        removed,
        vec![
            (Some("/d/a.zip".to_string()), "x.txt".to_string()),
            (Some("/d/c.cab".to_string()), "x.txt".to_string()),
            (None, "/d/a.txt".to_string()),
        ]
    );
}

#[test]
fn resolving_a_group_of_members_only() {
    let files = vec![FileInfo::new("/d/a.zip\tx", 0, 1), FileInfo::new("/d/c.cab\ty", 0, 1)];
    let r = resolve_group(DuplicateGroup::new(0, 1, files));
    assert_eq!(r.keep.container, Some("/d/c.cab".to_string()));
    assert_eq!(r.remove.len(), 1);
    assert_eq!(r.remove[0].container, Some("/d/a.zip".to_string()));
}

#[test]
fn resolving_a_single_file_keeps_it() {
    let r = resolve_group(DuplicateGroup::new(0, 1, vec![FileInfo::new("/d/a", 0, 1)]));
    assert_eq!(r.keep.path, "/d/a");
    assert!(r.remove.is_empty());
}

#[test]
fn archive_removal_lists() {
    let mut rlist: Vec<ArchiveFiles> = Vec::new();
    add_archive_removal(&mut rlist, "/d/a.zip", "x");
    add_archive_removal(&mut rlist, "/d/b.cab", "y");
    add_archive_removal(&mut rlist, "/d/a.zip", "z");
    assert_eq!(rlist.len(), 2);
    assert_eq!(rlist[0].container, "/d/a.zip");
    assert_eq!(rlist[0].files, vec!["x".to_string(), "z".to_string()]);
    assert_eq!(rlist[1].files, vec!["y".to_string()]);
}

#[test]
fn containers_moved_once() {
    let paths = vec![
        "/d/plain.pdf".to_string(),
        "/d/a.zip\tdoc.PDF".to_string(),
        "/d/a.zip\tother.pdf".to_string(),
        "/d/b.zip\tnote.txt".to_string(),
        "/d/c.cab\tx.pdf".to_string(),
    ];
    let moved = containers_to_move(&paths, "pdf");
    assert_eq!(moved, vec!["/d/a.zip".to_string(), "/d/c.cab".to_string()]);
    assert!(containers_to_move(&paths, "PDF").is_empty());
}

#[test]
fn duplicates_of_one_length() {
    let files = vec![
        FileInfo::new("/d/a.zip\tx", 0, 7),
        FileInfo::new("/d/lonely", 0, 9),
        FileInfo::new("/d/x", 0, 7),
        FileInfo::new("/d/y", 0, 8),
        FileInfo::new("/d/b.cab\ty", 0, 8),
    ];
    let out = resolve_duplicates(files);
    assert_eq!(out.len(), 2);
    let seven = out.iter().find(|(c, _)| *c == 7).unwrap();
    assert_eq!(seven.1.keep.path, "/d/x");
    assert_eq!(seven.1.remove.len(), 1);
    let eight = out.iter().find(|(c, _)| *c == 8).unwrap();
    assert_eq!(eight.1.keep.path, "/d/y");
    assert_eq!(eight.1.remove[0].container, Some("/d/b.cab".to_string()));
    assert!(out.iter().all(|(c, _)| *c != 9));
}
