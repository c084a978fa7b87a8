//! Which handler a scanned path goes to, and which handler computes the CRC
//! of, or removes, a scan entry.

use vstd::prelude::*;
use crate::archiver::{
    archive_kind, backup_plan, home_pattern, kind_of_lowercase, rmdup_dir_infix, strip_home, ArchiveKind, BackupPlan,
};
use crate::pattern::PatternError;
use crate::text::{all_ascii, ascii_lowercase, ends_with, has_suffix, lemma_split_nonempty, split_char, split_on, spec_to_lowercase, views};

verus! {

/// What the scan does with a directory entry.
#[derive(Debug, Clone, Copy, PartialEq, Eq, Structural)]
pub enum ScanAction {
    /// A directory to scan.
    Descend,
    /// A backup directory, left alone.
    Skip,
    /// An archive whose members are listed.
    Archive(ArchiveKind),
    /// A plain file, recorded by its length.
    Plain,
}

/// The name of the directory that holds backups: `.rmdup`.
pub open spec fn backup_dir_suffix() -> Seq<char> {
    seq!['.', 'r', 'm', 'd', 'u', 'p']
}

/// What the scan does with `path`: directories are scanned unless their path
/// ends in `.rmdup`; files go to the handler of their archive format, if any.
pub fn classify_entry(path: &str, is_dir: bool) -> (r: ScanAction)
    ensures
        is_dir ==> r == (if has_suffix(path@, backup_dir_suffix()) {
            ScanAction::Skip
        } else {
            ScanAction::Descend
        }),
        !is_dir ==> r == match kind_of_lowercase(spec_to_lowercase(path@)) {
            Some(k) => ScanAction::Archive(k),
            None => ScanAction::Plain,
        },
        !is_dir && all_ascii(path@) ==> r == match kind_of_lowercase(ascii_lowercase(path@)) {
            Some(k) => ScanAction::Archive(k),
            None => ScanAction::Plain,
        },
{
    if is_dir {
        let suffix = ".rmdup";
        proof {
            reveal_strlit(".rmdup");
            assert(suffix@ =~= backup_dir_suffix());
        }
        if ends_with(path, suffix) {
            ScanAction::Skip
        } else {
            ScanAction::Descend
        }
    } else {
        match archive_kind(path) {
            Some(k) => ScanAction::Archive(k),
            None => ScanAction::Plain,
        }
    }
}

/// Where the CRC of a scan entry comes from.
#[derive(Debug)]
pub enum CrcSource {
    /// The contents of a plain file.
    File(String),
    /// A member of an archive: format, archive path, member path.
    Member(ArchiveKind, String, String),
    /// A member of an archive in no format the tool reads; its CRC is 0.
    Unsupported,
}

/// Where the CRC of the scan entry `path` comes from: a plain file when the
/// entry holds no tab, otherwise the member after the first tab of the
/// archive before it.
pub fn crc(path: &str) -> (r: CrcSource)
    ensures
        ({
            let parts = split_on(path@, '\t');
            if parts.len() == 1 {
                r matches CrcSource::File(p) && p@ == path@
            } else {
                match kind_of_lowercase(spec_to_lowercase(parts[0])) {
                    Some(k) => r matches CrcSource::Member(k2, c, p) && k2 == k && c@ == parts[0] && p@
                        == parts[1],
                    None => r is Unsupported,
                }
            }
        }),
{
    let mut parts = split_char(path, '\t');
    proof {
        lemma_split_nonempty(path@, '\t');
    }
    if parts.len() == 1 {
        CrcSource::File(String::from_str(path))
    } else {
        proof {
            assert(views(parts@)[0] == parts@[0]@);
            assert(views(parts@)[1] == parts@[1]@);
        }
        match archive_kind(parts[0].as_str()) {
            Some(k) => {
                let p = parts.swap_remove(1);
                let c = parts.swap_remove(0);
                CrcSource::Member(k, c, p)
            },
            None => CrcSource::Unsupported,
        }
    }
}

/// A request to rewrite an archive without some of its members.
#[derive(Debug)]
pub struct ArchiveRemoval {
    pub kind: ArchiveKind,
    pub container: String,
    pub files: Vec<String>,
}

/// The removal that deleting the scan entry `path` asks for: none for a plain
/// file; for a member of a cabinet or zip archive, that member of that
/// archive. Members of other archives are left alone.
pub fn remove(path: &str) -> (r: Option<ArchiveRemoval>)
    ensures
        ({
            let parts = split_on(path@, '\t');
            let kind = kind_of_lowercase(spec_to_lowercase(parts[0]));
            if parts.len() != 1 && (kind == Some(ArchiveKind::Cabinet) || kind == Some(ArchiveKind::Zip)) {
                r matches Some(a) && Some(a.kind) == kind && a.container@ == parts[0] && views(a.files@)
                    == seq![parts[1]]
            } else {
                r is None
            }
        }),
{
    let mut parts = split_char(path, '\t');
    proof {
        lemma_split_nonempty(path@, '\t');
        assert(views(parts@)[0] == parts@[0]@);
    }
    if parts.len() == 1 {
        None
    } else {
        proof {
            assert(views(parts@)[1] == parts@[1]@);
        }
        let kind = match archive_kind(parts[0].as_str()) {
            Some(k) => k,
            None => return None,
        };
        match kind {
            ArchiveKind::Cabinet | ArchiveKind::Zip => {
                let p = parts.swap_remove(1);
                let c = parts.swap_remove(0);
                let mut files: Vec<String> = Vec::new();
                files.push(p);
                proof {
                    assert(views(files@) =~= seq![p@]);
                }
                Some(ArchiveRemoval { kind, container: c, files })
            },
            _ => None,
        }
    }
}

/// The removal of `files` from the archive `container`, if the tool reads its
/// format.
pub fn remove_in_archive(container: &str, files: Vec<String>) -> (r: Option<ArchiveRemoval>)
    ensures
        match kind_of_lowercase(spec_to_lowercase(container@)) {
            Some(k) => r matches Some(a) && a.kind == k && a.container@ == container@ && a.files@
                == files@,
            None => r is None,
        },
{
    match archive_kind(container) {
        Some(kind) => Some(ArchiveRemoval { kind, container: String::from_str(container), files }),
        None => None,
    }
}


/// The backup of `file` at time `now_str` under `home`. The only error is
/// that the pattern of `home` did not compile.
pub fn backup_file(file: &str, now_str: &str, home: &str) -> (r: Result<BackupPlan, PatternError>)
    ensures
        r matches Ok(plan) ==> plan.backup@ == home@ + rmdup_dir_infix() + now_str@ + strip_home(file@, home@)
            && plan.tmp@ == file@ + seq!['.', 't', 'm', 'p', '.'] + now_str@,
{
    let re = home_pattern(home)?;
    Ok(backup_plan(file, now_str, home, &re))
}

} // verus!
