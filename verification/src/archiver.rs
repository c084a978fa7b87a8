//! Bookkeeping shared by the archive handlers: the table of files by
//! length, the names of archive members, temporary and backup paths, and the
//! CRC and name decoding of member data.

use vstd::prelude::*;
use std::collections::HashMap;
use vstd::hash_map::StringHashMap;
use crate::file_info::{entry_container, entry_path};
use vstd::utf8::{decode_utf8, valid_utf8};
use crate::pattern::{escape, regex_escape, regex_replace, Pattern, PatternError};
use crate::text::{
    all_ascii, ascii_lowercase, concat2, concat3, ends_with, has_prefix, has_suffix, lemma_split_join2, spec_to_lowercase, split_on, to_lowercase, vec_contains,
    views,
};

pub mod rar;

verus! {

broadcast use vstd::std_specs::hash::group_hash_axioms;

/// The table of scan entries by length, as a map from length to the entries.
pub open spec fn len_table(m: Map<u64, Vec<String>>) -> Map<u64, Seq<Seq<char>>> {
    Map::new(|k: u64| m.contains_key(k), |k: u64| views(m[k]@))
}

/// The entries of `t` for length `len`, none if it has no such length.
pub open spec fn entries_of(t: Map<u64, Seq<Seq<char>>>, len: u64) -> Seq<Seq<char>> {
    if t.contains_key(len) {
        t[len]
    } else {
        Seq::empty()
    }
}

/// `t` with `name` added at the end of the entries for `len`.
pub open spec fn table_push(t: Map<u64, Seq<Seq<char>>>, len: u64, name: Seq<char>) -> Map<u64, Seq<Seq<char>>> {
    t.insert(len, entries_of(t, len).push(name))
}

/// The number of entries of `t`, over all its lengths.
pub open spec fn entry_count(t: Map<u64, Seq<Seq<char>>>) -> nat {
    t.dom().fold(0nat, count_step(t))
}

/// Adds the number of entries of `t` for length `k` to `acc`.
pub open spec fn count_step(t: Map<u64, Seq<Seq<char>>>) -> spec_fn(nat, u64) -> nat {
    |acc: nat, k: u64| acc + t[k].len()
}

/// Every length of `t` has at least one entry.
pub open spec fn entries_nonempty(t: Map<u64, Seq<Seq<char>>>) -> bool {
    forall|k: u64| #[trigger] t.contains_key(k) ==> t[k].len() > 0
}

/// `t2` keeps every length of `t1`, with the entries of `t1` first.
pub open spec fn extends_table(t1: Map<u64, Seq<Seq<char>>>, t2: Map<u64, Seq<Seq<char>>>) -> bool {
    forall|k: u64|
        #[trigger] t1.contains_key(k) ==> t2.contains_key(k) && t1[k].len() <= t2[k].len() && t2[k].subrange(
            0,
            t1[k].len() as int,
        ) == t1[k]
}

proof fn lemma_count_step_commutative(t: Map<u64, Seq<Seq<char>>>)
    ensures
        vstd::set::fold::is_fun_commutative(count_step(t)),
{
    assert forall|a1: u64, a2: u64, b: nat|
        #[trigger] count_step(t)(count_step(t)(b, a2), a1) == count_step(t)(count_step(t)(b, a1), a2) by {}
}

proof fn lemma_count_fold_agree(s: Set<u64>, t1: Map<u64, Seq<Seq<char>>>, t2: Map<u64, Seq<Seq<char>>>)
    requires
        s.finite(),
        forall|k: u64| s.contains(k) ==> t1[k].len() == t2[k].len(),
    ensures
        s.fold(0nat, count_step(t1)) == s.fold(0nat, count_step(t2)),
    decreases s.len(),
{
    lemma_count_step_commutative(t1);
    lemma_count_step_commutative(t2);
    if s.len() == 0 {
        vstd::set_lib::lemma_set_empty_equivalency_len(s);
        vstd::set::fold::lemma_fold_empty(0nat, count_step(t1));
        vstd::set::fold::lemma_fold_empty(0nat, count_step(t2));
    } else {
        let a = s.choose();
        let r = s.remove(a);
        lemma_count_fold_agree(r, t1, t2);
        assert(r.insert(a) =~= s);
        vstd::set::fold::lemma_fold_insert(r, 0nat, count_step(t1), a);
        vstd::set::fold::lemma_fold_insert(r, 0nat, count_step(t2), a);
    }
}

/// Adding an entry keeps the entries each length had, in order, in front;
/// it keeps every length's entries non-empty where they were, and on a
/// finite table it adds exactly one entry.
pub proof fn law_table_push_appends(t: Map<u64, Seq<Seq<char>>>, len: u64, name: Seq<char>)
    ensures
        extends_table(t, table_push(t, len, name)),
        entries_nonempty(t) ==> entries_nonempty(table_push(t, len, name)),
        t.dom().finite() ==> table_push(t, len, name).dom().finite(),
        t.dom().finite() ==> entry_count(table_push(t, len, name)) == entry_count(t) + 1,
{
    let t2 = table_push(t, len, name);
    assert(t2.dom() =~= t.dom().insert(len));
    assert forall|k: u64| #[trigger] t.contains_key(k) implies t2.contains_key(k) && t[k].len() <= t2[k].len()
        && t2[k].subrange(0, t[k].len() as int) == t[k] by {
        if k == len {
            assert(t2[k].subrange(0, t[k].len() as int) =~= t[k]);
        } else {
            assert(t2[k].subrange(0, t[k].len() as int) =~= t[k]);
        }
    }
    if t.dom().finite() {
        lemma_count_step_commutative(t);
        lemma_count_step_commutative(t2);
        if t.contains_key(len) {
            let r = t.dom().remove(len);
            lemma_count_fold_agree(r, t, t2);
            assert(r.insert(len) =~= t.dom());
            assert(r.insert(len) =~= t2.dom());
            vstd::set::fold::lemma_fold_insert(r, 0nat, count_step(t), len);
            vstd::set::fold::lemma_fold_insert(r, 0nat, count_step(t2), len);
        } else {
            lemma_count_fold_agree(t.dom(), t, t2);
            vstd::set::fold::lemma_fold_insert(t.dom(), 0nat, count_step(t2), len);
        }
    }
}

/// Adds `name` at the end of the entries of `map_len` for length `len`.
pub fn push_map_len(map_len: &mut HashMap<u64, Vec<String>>, len: u64, name: &str)
    ensures
        len_table(final(map_len)@) == table_push(len_table(old(map_len)@), len, name@),
{
    let ghost t = len_table(map_len@);
    match map_len.remove(&len) {
        Some(mut paths) => {
            let ghost before = paths@;
            paths.push(String::from_str(name));
            proof {
                assert(views(paths@) =~= views(before).push(name@));
            }
            map_len.insert(len, paths);
        },
        None => {
            let mut paths: Vec<String> = Vec::new();
            paths.push(String::from_str(name));
            proof {
                assert(views(paths@) =~= seq![name@]);
                assert(entries_of(t, len) =~= Seq::<Seq<char>>::empty());
            }
            map_len.insert(len, paths);
        },
    }
    proof {
        assert(len_table(map_len@) =~= table_push(t, len, name@));
    }
}

/// The temporary path for `path` at time `now`: `path.tmp.now`.
pub fn resolve_tmp_path(path: &str, now_str: &str) -> (r: String)
    ensures
        r@ == path@ + seq!['.', 't', 'm', 'p', '.'] + now_str@,
{
    let sep = ".tmp.";
    proof {
        reveal_strlit(".tmp.");
        assert(sep@ =~= seq!['.', 't', 'm', 'p', '.']);
    }
    concat3(path, sep, now_str)
}

/// `s` without the trailing `c` characters, as `str::trim_end_matches`
/// with a character.
pub open spec fn trim_end_char(s: Seq<char>, c: char) -> Seq<char>
    decreases s.len(),
{
    if s.len() > 0 && s.last() == c {
        trim_end_char(s.drop_last(), c)
    } else {
        s
    }
}

proof fn lemma_trim_end_char_take(s: Seq<char>, c: char, k: int)
    requires
        0 <= k <= s.len(),
        forall|i: int| k <= i < s.len() ==> s[i] == c,
    ensures
        trim_end_char(s, c) == trim_end_char(s.take(k), c),
    decreases s.len() - k,
{
    if k < s.len() {
        lemma_trim_end_char_take(s.drop_last(), c, k);
        assert(s.drop_last().take(k) =~= s.take(k));
    } else {
        assert(s.take(k) =~= s);
    }
}

/// The directory that holds backups: the value of `RMDUP_HOME` without
/// trailing slashes when it is set, otherwise the temporary directory.
pub fn resolve_home_dir(rmdup_home: Option<&str>, temp_dir: &str) -> (r: String)
    ensures
        r@ == match rmdup_home {
            Some(h) => trim_end_char(h@, '/'),
            None => temp_dir@,
        },
{
    match rmdup_home {
        None => String::from_str(temp_dir),
        Some(h) => {
            let n = h.unicode_len();
            let mut b: usize = n;
            while b > 0 && h.get_char(b - 1) == '/'
                invariant
                    n == h@.len(),
                    b <= n,
                    forall|i: int| b <= i < n ==> h@[i] == '/',
                decreases b,
            {
                b = b - 1;
            }
            proof {
                lemma_trim_end_char_take(h@, '/', b as int);
                let t = h@.take(b as int);
                assert(t.len() == 0 || t.last() != '/');
                assert(trim_end_char(t, '/') == t);
            }
            let t = h.substring_char(0, b);
            proof {
                assert(t@ =~= h@.take(b as int));
            }
            String::from_str(t)
        },
    }
}

/// The pattern that matches `home` at the start of a path: `^` and `home`
/// escaped.
pub open spec fn home_pattern_source(home: Seq<char>) -> Seq<char> {
    seq!['^'] + regex_escape(home)
}

/// Compiles the pattern that matches `home` at the start of a path.
pub fn home_pattern(home: &str) -> (r: Result<Pattern, PatternError>)
    ensures
        r matches Ok(p) ==> p@ == home_pattern_source(home@),
{
    let caret = "^";
    proof {
        reveal_strlit("^");
        assert(caret@ =~= seq!['^']);
    }
    let escaped = escape(home);
    let source = concat2(caret, escaped.as_str());
    Pattern::new(source.as_str())
}

/// `path` relative to `home` when it lies under it, `path` itself otherwise.
pub open spec fn strip_home(path: Seq<char>, home: Seq<char>) -> Seq<char> {
    if has_prefix(path, home) {
        path.skip(home.len() as int)
    } else {
        path
    }
}

pub open spec fn rmdup_dir_infix() -> Seq<char> {
    seq!['/', '.', 'r', 'm', 'd', 'u', 'p', '/']
}

/// Where a file goes when it is moved aside, and the temporary file that
/// takes its place if a rewritten archive was written.
#[derive(Debug)]
pub struct BackupPlan {
    /// `home/.rmdup/now` followed by the file's path below `home`.
    pub backup: String,
    /// The temporary path of the file: `path.tmp.now`.
    pub tmp: String,
}

/// The backup of `path` at time `now_str` under `home`, given the compiled
/// pattern of `home`.
pub fn backup_plan(path: &str, now_str: &str, home: &str, home_re: &Pattern) -> (r: BackupPlan)
    requires
        home_re@ == home_pattern_source(home@),
    ensures
        r.backup@ == home@ + rmdup_dir_infix() + now_str@ + strip_home(path@, home@),
        r.tmp@ == path@ + seq!['.', 't', 'm', 'p', '.'] + now_str@,
{
    let empty = "";
    proof {
        reveal_strlit("");
        assert(empty@.len() == 0);
    }
    let rel = regex_replace(home_re, path, empty);
    let infix = "/.rmdup/";
    proof {
        reveal_strlit("/.rmdup/");
        assert(infix@ =~= rmdup_dir_infix());
        assert(home_re@ == seq!['^'] + regex_escape(home@));
    }
    let mut backup = concat3(home, infix, now_str);
    backup.append(rel.as_str());
    BackupPlan { backup, tmp: resolve_tmp_path(path, now_str) }
}

/// A path under `home` is backed up at the same place below
/// `home/.rmdup/now`.
pub proof fn law_backup_keeps_relative_path(home: Seq<char>, rel: Seq<char>)
    ensures
        strip_home(home + rel, home) == rel,
{
    assert((home + rel).take(home.len() as int) =~= home);
    assert((home + rel).skip(home.len() as int) =~= rel);
}

/// One shift of the CRC-32 register (IEEE polynomial, bit-reflected form
/// 0xEDB88320).
pub open spec fn crc32_shift(c: u32) -> u32 {
    if c & 1u32 == 1u32 {
        (c >> 1u32) ^ 0xEDB8_8320u32
    } else {
        c >> 1u32
    }
}

/// The register after one byte: the byte folded in, then eight shifts.
pub open spec fn crc32_byte(c: u32, b: u8) -> u32 {
    let x = c ^ (b as u32);
    crc32_shift(crc32_shift(crc32_shift(crc32_shift(crc32_shift(crc32_shift(crc32_shift(crc32_shift(x))))))))
}

/// The register after `data`, starting from `c`.
pub open spec fn crc32_register(c: u32, data: Seq<u8>) -> u32
    decreases data.len(),
{
    if data.len() == 0 {
        c
    } else {
        crc32_byte(crc32_register(c, data.drop_last()), data.last())
    }
}

/// The CRC-32 of `d + data`, where `state` is the CRC-32 of `d`; for
/// `state == 0`, the CRC-32 of `data`.
pub open spec fn crc32_continue(state: u32, data: Seq<u8>) -> u32 {
    !crc32_register(!state, data)
}

proof fn lemma_crc32_register_append(c: u32, a: Seq<u8>, b: Seq<u8>)
    ensures
        crc32_register(crc32_register(c, a), b) == crc32_register(c, a + b),
    decreases b.len(),
{
    if b.len() == 0 {
        assert(a + b =~= a);
    } else {
        lemma_crc32_register_append(c, a, b.drop_last());
        assert((a + b).drop_last() =~= a + b.drop_last());
        assert((a + b).last() == b.last());
    }
}

/// Reading data in two chunks gives the CRC-32 of the whole.
pub proof fn law_crc32_chunks(state: u32, a: Seq<u8>, b: Seq<u8>)
    ensures
        crc32_continue(crc32_continue(state, a), b) == crc32_continue(state, a + b),
{
    lemma_crc32_register_append(!state, a, b);
    let r = crc32_register(!state, a);
    assert(!(!r) == r) by (bit_vector);
}

/// The CRC-32 of no data is 0.
pub proof fn law_crc32_empty()
    ensures
        crc32_continue(0, Seq::empty()) == 0,
{
    assert(!(!0u32) == 0u32) by (bit_vector);
}

/// Continues a CRC-32 computation: `crc32fast::Hasher::new_with_initial`
/// with `state`, `Hasher::update` with `data`, and `Hasher::finalize`. The
/// crate computes the IEEE CRC-32: its update inverts the state, runs the
/// reflected register over the bytes and inverts the result, so `finalize`
/// gives the CRC-32 of the earlier data followed by `data`.
#[verifier::external_body]
fn crc32_update(state: u32, data: &[u8]) -> (r: u32)
    ensures
        r == crc32_continue(state, data@),
{
    let mut hasher = crc32fast::Hasher::new_with_initial(state);
    hasher.update(data);
    hasher.finalize()
}

/// A CRC-32 computed over data read in chunks.
pub struct Crc32 {
    /// The CRC-32 of the data read so far.
    state: u32,
    /// The data read so far.
    data: Ghost<Seq<u8>>,
}

impl Crc32 {
    /// The state is the CRC-32 of the data read so far.
    #[verifier::type_invariant]
    spec fn state_is_crc_of_data(self) -> bool {
        self.state == crc32_continue(0, self.data@)
    }
}

impl View for Crc32 {
    type V = Seq<u8>;

    /// The data read so far.
    closed spec fn view(&self) -> Seq<u8> {
        self.data@
    }
}

impl Crc32 {
    /// A computation that has read no data.
    pub fn new() -> (r: Crc32)
        ensures
            r@ == Seq::<u8>::empty(),
    {
        proof {
            law_crc32_empty();
        }
        Crc32 { state: 0, data: Ghost(Seq::empty()) }
    }

    /// Reads one more chunk.
    pub fn update(&mut self, chunk: &[u8])
        ensures
            final(self)@ == old(self)@ + chunk@,
    {
        proof {
            use_type_invariant(&*self);
            law_crc32_chunks(0, self.data@, chunk@);
        }
        let state = crc32_update(self.state, chunk);
        let ghost data = self.data@ + chunk@;
        *self = Crc32 { state, data: Ghost(data) };
    }

    /// The CRC-32 of the data read.
    pub fn finalize(&self) -> (r: u32)
        ensures
            r == crc32_continue(0, self@),
    {
        proof {
            use_type_invariant(self);
        }
        self.state
    }
}

/// Calls `std::str::from_utf8`, which accepts exactly the valid UTF-8
/// sequences and then gives the characters they encode.
#[verifier::external_body]
fn str_from_utf8(bytes: &[u8]) -> (r: Option<&str>)
    ensures
        r is Some <==> valid_utf8(bytes@),
        r matches Some(s) ==> s@ == decode_utf8(bytes@),
{
    std::str::from_utf8(bytes).ok()
}

/// What `encoding_rs::SHIFT_JIS.decode` returns for `bytes` (after its BOM
/// sniffing, with malformed sequences replaced).
pub uninterp spec fn spec_shift_jis_decode(bytes: Seq<u8>) -> Seq<char>;

/// Calls `encoding_rs::SHIFT_JIS.decode`. The decoded text is named by
/// `spec_shift_jis_decode`; nothing more is claimed of it here. The length
/// bound keeps its buffer-size computation, which panics on overflow, in
/// range.
#[verifier::external_body]
fn shift_jis_decode(bytes: &[u8]) -> (r: String)
    requires
        bytes@.len() < usize::MAX / 4,
    ensures
        r@ == spec_shift_jis_decode(bytes@),
{
    let (decoded, _, _) = encoding_rs::SHIFT_JIS.decode(bytes);
    decoded.into_owned()
}

/// A member name read from an archive header: UTF-8 when the bytes are
/// valid UTF-8, Shift_JIS otherwise.
pub fn to_utf8(bytes: &[u8]) -> (r: String)
    requires
        valid_utf8(bytes@) || bytes@.len() < usize::MAX / 4,
    ensures
        r@ == if valid_utf8(bytes@) {
            decode_utf8(bytes@)
        } else {
            spec_shift_jis_decode(bytes@)
        },
{
    match str_from_utf8(bytes) {
        Some(s) => String::from_str(s),
        None => shift_jis_decode(bytes),
    }
}

/// The scan entry of a member `name` of the archive `container`:
/// `container`, a tab, and `name`.
pub open spec fn member_key_spec(container: Seq<char>, name: Seq<char>) -> Seq<char> {
    container + seq!['\t'] + name
}

/// The scan entry of a member of an archive.
pub fn member_key(container: &str, name: &str) -> (r: String)
    ensures
        r@ == member_key_spec(container@, name@),
{
    let tab = "\t";
    proof {
        reveal_strlit("\t");
        assert(tab@ =~= seq!['\t']);
    }
    concat3(container, tab, name)
}


/// The archive formats the tool reads.
#[derive(Debug, Clone, Copy, PartialEq, Eq, Structural)]
pub enum ArchiveKind {
    Cabinet,
    Zip,
    Lzh,
    Rar,
}

/// The archive format of a path by its lowercased form: `.cab`, `.zip`,
/// `.lzh` or `.rar` at the end.
pub open spec fn kind_of_lowercase(lower: Seq<char>) -> Option<ArchiveKind> {
    if has_suffix(lower, seq!['.', 'c', 'a', 'b']) {
        Some(ArchiveKind::Cabinet)
    } else if has_suffix(lower, seq!['.', 'z', 'i', 'p']) {
        Some(ArchiveKind::Zip)
    } else if has_suffix(lower, seq!['.', 'l', 'z', 'h']) {
        Some(ArchiveKind::Lzh)
    } else if has_suffix(lower, seq!['.', 'r', 'a', 'r']) {
        Some(ArchiveKind::Rar)
    } else {
        None
    }
}

/// The archive format of a path whose lowercase form is `lower`.
pub fn archive_kind_of_lowercase(lower: &str) -> (r: Option<ArchiveKind>)
    ensures
        r == kind_of_lowercase(lower@),
{
    let cab = ".cab";
    let zip = ".zip";
    let lzh = ".lzh";
    let rar = ".rar";
    proof {
        reveal_strlit(".cab");
        reveal_strlit(".zip");
        reveal_strlit(".lzh");
        reveal_strlit(".rar");
        assert(cab@ =~= seq!['.', 'c', 'a', 'b']);
        assert(zip@ =~= seq!['.', 'z', 'i', 'p']);
        assert(lzh@ =~= seq!['.', 'l', 'z', 'h']);
        assert(rar@ =~= seq!['.', 'r', 'a', 'r']);
    }
    if ends_with(lower, cab) {
        Some(ArchiveKind::Cabinet)
    } else if ends_with(lower, zip) {
        Some(ArchiveKind::Zip)
    } else if ends_with(lower, lzh) {
        Some(ArchiveKind::Lzh)
    } else if ends_with(lower, rar) {
        Some(ArchiveKind::Rar)
    } else {
        None
    }
}

/// The archive format of a path, by its extension without regard to case.
pub fn archive_kind(path: &str) -> (r: Option<ArchiveKind>)
    ensures
        r == kind_of_lowercase(spec_to_lowercase(path@)),
        all_ascii(path@) ==> r == kind_of_lowercase(ascii_lowercase(path@)),
{
    let lower = to_lowercase(path);
    archive_kind_of_lowercase(lower.as_str())
}

/// A member listed by an archive handler.
pub struct MemberEntry {
    /// The member's path inside the archive.
    pub name: String,
    /// The member's uncompressed size.
    pub size: u64,
    /// The member's CRC-32, where the archive records one.
    pub crc: Option<u32>,
    /// Whether the member is a regular file the handler can read.
    pub included: bool,
}

/// The model of a `MemberEntry`.
pub type MemberModel = (Seq<char>, u64, Option<u32>, bool);

impl View for MemberEntry {
    type V = MemberModel;

    open spec fn view(&self) -> MemberModel {
        (self.name@, self.size, self.crc, self.included)
    }
}

pub open spec fn member_models(v: Seq<MemberEntry>) -> Seq<MemberModel> {
    v.map_values(|m: MemberEntry| m@)
}

/// The table after the included members of `container` are added in order.
pub open spec fn record_all(
    t: Map<u64, Seq<Seq<char>>>,
    container: Seq<char>,
    ms: Seq<MemberModel>,
) -> Map<u64, Seq<Seq<char>>>
    decreases ms.len(),
{
    if ms.len() == 0 {
        t
    } else {
        let pre = record_all(t, container, ms.drop_last());
        let m = ms.last();
        if m.3 {
            table_push(pre, m.1, member_key_spec(container, m.0))
        } else {
            pre
        }
    }
}

/// The number of members of `ms` that are included.
pub open spec fn included_count(ms: Seq<MemberModel>) -> nat
    decreases ms.len(),
{
    if ms.len() == 0 {
        0
    } else {
        included_count(ms.drop_last()) + if ms.last().3 {
            1nat
        } else {
            0nat
        }
    }
}

proof fn lemma_extends_trans(
    t1: Map<u64, Seq<Seq<char>>>,
    t2: Map<u64, Seq<Seq<char>>>,
    t3: Map<u64, Seq<Seq<char>>>,
)
    requires
        extends_table(t1, t2),
        extends_table(t2, t3),
    ensures
        extends_table(t1, t3),
{
    assert forall|k: u64| #[trigger] t1.contains_key(k) implies t3.contains_key(k) && t1[k].len() <= t3[k].len()
        && t3[k].subrange(0, t1[k].len() as int) == t1[k] by {
        assert(t2.contains_key(k));
        assert(t3[k].subrange(0, t1[k].len() as int) =~= t3[k].subrange(0, t2[k].len() as int).subrange(
            0,
            t1[k].len() as int,
        ));
    }
}

/// Recording the members of an archive keeps the entries each length had,
/// in order, in front; it keeps every length's entries non-empty where they
/// were, and on a finite table it adds one entry for each included member.
pub proof fn law_record_members_appends(t: Map<u64, Seq<Seq<char>>>, container: Seq<char>, ms: Seq<MemberModel>)
    ensures
        extends_table(t, record_all(t, container, ms)),
        entries_nonempty(t) ==> entries_nonempty(record_all(t, container, ms)),
        t.dom().finite() ==> record_all(t, container, ms).dom().finite(),
        t.dom().finite() ==> entry_count(record_all(t, container, ms)) == entry_count(t) + included_count(ms),
    decreases ms.len(),
{
    if ms.len() == 0 {
        assert forall|k: u64| #[trigger] t.contains_key(k) implies t[k].subrange(0, t[k].len() as int) == t[k] by {
            assert(t[k].subrange(0, t[k].len() as int) =~= t[k]);
        }
    } else {
        law_record_members_appends(t, container, ms.drop_last());
        let pre = record_all(t, container, ms.drop_last());
        let m = ms.last();
        if m.3 {
            law_table_push_appends(pre, m.1, member_key_spec(container, m.0));
            lemma_extends_trans(t, pre, record_all(t, container, ms));
        }
    }
}

/// The entries and CRCs of the included members of `container` that carry a
/// CRC, in order.
pub open spec fn recorded_crcs(container: Seq<char>, ms: Seq<MemberModel>) -> Seq<(Seq<char>, u32)>
    decreases ms.len(),
{
    if ms.len() == 0 {
        Seq::empty()
    } else {
        let pre = recorded_crcs(container, ms.drop_last());
        let m = ms.last();
        if m.3 && m.2 is Some {
            pre.push((member_key_spec(container, m.0), m.2->0))
        } else {
            pre
        }
    }
}

pub open spec fn crc_pairs(v: Seq<(String, u32)>) -> Seq<(Seq<char>, u32)> {
    v.map_values(|p: (String, u32)| (p.0@, p.1))
}

/// Adds the included members of `container` to the table by length, and
/// returns their entries with the CRCs the archive records for them.
pub fn record_members(
    map_len: &mut HashMap<u64, Vec<String>>,
    container: &str,
    members: &Vec<MemberEntry>,
) -> (crcs: Vec<(String, u32)>)
    ensures
        len_table(final(map_len)@) == record_all(len_table(old(map_len)@), container@, member_models(members@)),
        crc_pairs(crcs@) == recorded_crcs(container@, member_models(members@)),
{
    let ghost t0 = len_table(map_len@);
    let ghost ms = member_models(members@);
    let mut crcs: Vec<(String, u32)> = Vec::new();
    let mut i: usize = 0;
    proof {
        assert(ms.take(0) =~= Seq::<MemberModel>::empty());
        assert(crc_pairs(crcs@) =~= Seq::<(Seq<char>, u32)>::empty());
    }
    while i < members.len()
        invariant
            i <= members.len(),
            ms == member_models(members@),
            len_table(map_len@) == record_all(t0, container@, ms.take(i as int)),
            crc_pairs(crcs@) == recorded_crcs(container@, ms.take(i as int)),
        decreases members.len() - i,
    {
        let m = &members[i];
        proof {
            assert(ms.take(i + 1).drop_last() =~= ms.take(i as int));
            assert(ms.take(i + 1).last() == m@);
        }
        if m.included {
            let key = member_key(container, m.name.as_str());
            push_map_len(map_len, m.size, key.as_str());
            match m.crc {
                Some(c) => {
                    let ghost before = crcs@;
                    crcs.push((key, c));
                    proof {
                        assert(crc_pairs(crcs@) =~= crc_pairs(before).push((member_key_spec(container@, m.name@), c)));
                    }
                },
                None => {},
            }
        }
        i = i + 1;
    }
    proof {
        assert(ms.take(members.len() as int) =~= ms);
    }
    crcs
}

/// `m` with each (entry, CRC) of `ps` inserted in order.
pub open spec fn insert_all(m: Map<Seq<char>, u32>, ps: Seq<(Seq<char>, u32)>) -> Map<Seq<char>, u32>
    decreases ps.len(),
{
    if ps.len() == 0 {
        m
    } else {
        insert_all(m, ps.drop_last()).insert(ps.last().0, ps.last().1)
    }
}

/// The CRCs that archives record for their members, by scan entry.
pub struct CrcTable {
    map: StringHashMap<u32>,
}

impl View for CrcTable {
    type V = Map<Seq<char>, u32>;

    closed spec fn view(&self) -> Map<Seq<char>, u32> {
        self.map@
    }
}

impl CrcTable {
    /// The table with no entries.
    pub fn new() -> (r: CrcTable)
        ensures
            r@ == Map::<Seq<char>, u32>::empty(),
    {
        CrcTable { map: StringHashMap::new() }
    }

    /// The CRC recorded for `entry`, if any.
    pub fn get(&self, entry: &str) -> (r: Option<u32>)
        ensures
            r == (if self@.contains_key(entry@) {
                Some(self@[entry@])
            } else {
                None
            }),
    {
        match self.map.get(entry) {
            Some(c) => Some(*c),
            None => None,
        }
    }

    /// Records the CRCs of `crcs`, in order; a later CRC for the same entry
    /// replaces the earlier one.
    pub fn record(&mut self, crcs: Vec<(String, u32)>)
        ensures
            final(self)@ == insert_all(old(self)@, crc_pairs(crcs@)),
    {
        let ghost m0 = self@;
        let ghost ps = crc_pairs(crcs@);
        let mut i: usize = 0;
        proof {
            assert(ps.take(0) =~= Seq::<(Seq<char>, u32)>::empty());
        }
        while i < crcs.len()
            invariant
                i <= crcs.len(),
                ps == crc_pairs(crcs@),
                self@ == insert_all(m0, ps.take(i as int)),
            decreases crcs.len() - i,
        {
            let p = &crcs[i];
            proof {
                assert(ps.take(i + 1).drop_last() =~= ps.take(i as int));
                assert(ps.take(i + 1).last() == (p.0@, p.1));
            }
            self.map.insert(String::from_str(p.0.as_str()), p.1);
            i = i + 1;
        }
        proof {
            assert(ps.take(crcs.len() as int) =~= ps);
        }
    }
}

/// Recording CRCs keeps every entry the table had, and each recorded entry
/// is then in the table.
pub proof fn law_crc_table_keeps_entries(m: Map<Seq<char>, u32>, ps: Seq<(Seq<char>, u32)>)
    ensures
        forall|k: Seq<char>| m.contains_key(k) ==> #[trigger] insert_all(m, ps).contains_key(k),
        forall|i: int| 0 <= i < ps.len() ==> insert_all(m, ps).contains_key(#[trigger] ps[i].0),
    decreases ps.len(),
{
    if ps.len() > 0 {
        law_crc_table_keeps_entries(m, ps.drop_last());
        assert forall|k: Seq<char>| m.contains_key(k) implies #[trigger] insert_all(m, ps).contains_key(k) by {
            assert(insert_all(m, ps.drop_last()).contains_key(k));
        }
        assert forall|i: int| 0 <= i < ps.len() implies insert_all(m, ps).contains_key(#[trigger] ps[i].0) by {
            if i < ps.len() - 1 {
                assert(ps.drop_last()[i] == ps[i]);
            }
        }
    }
}

/// What rewriting an archive does with one of its members.
#[derive(Debug, Clone, Copy, PartialEq, Eq, Structural)]
pub enum MemberAction {
    /// The member is one of those to remove.
    Remove,
    /// The member is copied into the rewritten archive.
    Keep,
    /// The member cannot be copied (not a file, or not readable) and is left out.
    Skip,
}

/// The action for a member `name` when `files` are removed.
pub open spec fn member_action(name: Seq<char>, copyable: bool, files: Seq<Seq<char>>) -> MemberAction {
    if files.contains(name) {
        MemberAction::Remove
    } else if copyable {
        MemberAction::Keep
    } else {
        MemberAction::Skip
    }
}

/// The action for a member `name` that can be copied if `copyable`, when
/// `files` are removed.
pub fn decide_member(name: &str, copyable: bool, files: &Vec<String>) -> (r: MemberAction)
    ensures
        r == member_action(name@, copyable, views(files@)),
{
    if vec_contains(files, name) {
        MemberAction::Remove
    } else if copyable {
        MemberAction::Keep
    } else {
        MemberAction::Skip
    }
}

/// The actions for the members of an archive, in order.
pub open spec fn member_actions(ms: Seq<(Seq<char>, bool)>, files: Seq<Seq<char>>) -> Seq<MemberAction> {
    Seq::new(ms.len(), |i: int| member_action(ms[i].0, ms[i].1, files))
}

/// A member is removed exactly when its name is equal to one of the names to
/// remove (a name that only ends with one is not); any other member is
/// copied when it can be and skipped otherwise.
pub proof fn law_member_removed_iff_named(name: Seq<char>, copyable: bool, files: Seq<Seq<char>>)
    ensures
        member_action(name, copyable, files) == MemberAction::Remove <==> exists|k: int|
            0 <= k < files.len() && files[k] == name,
        member_action(name, copyable, files) == MemberAction::Keep <==> copyable && forall|k: int|
            0 <= k < files.len() ==> files[k] != name,
        member_action(name, copyable, files) == MemberAction::Skip <==> !copyable && forall|k: int|
            0 <= k < files.len() ==> files[k] != name,
{
}

/// Rewriting an archive removes exactly the members whose names are among
/// the names to remove, and leaves it empty exactly when each member is
/// either removed or cannot be copied.
pub proof fn law_plan_removal(ms: Seq<(Seq<char>, bool)>, files: Seq<Seq<char>>)
    ensures
        member_actions(ms, files).len() == ms.len(),
        forall|i: int|
            0 <= i < ms.len() ==> (#[trigger] member_actions(ms, files)[i] == MemberAction::Remove <==> files.contains(
                ms[i].0,
            )),
        !member_actions(ms, files).contains(MemberAction::Keep) <==> forall|i: int|
            0 <= i < ms.len() ==> files.contains(#[trigger] ms[i].0) || !ms[i].1,
{
    let acts = member_actions(ms, files);
    if !acts.contains(MemberAction::Keep) {
        assert forall|i: int| 0 <= i < ms.len() implies files.contains(#[trigger] ms[i].0) || !ms[i].1 by {
            assert(acts[i] != MemberAction::Keep);
        }
    }
    if forall|i: int| 0 <= i < ms.len() ==> files.contains(#[trigger] ms[i].0) || !ms[i].1 {
        assert forall|j: int| 0 <= j < acts.len() implies acts[j] != MemberAction::Keep by {
            assert(files.contains(ms[j].0) || !ms[j].1);
        }
    }
}

pub open spec fn name_flags(v: Seq<(String, bool)>) -> Seq<(Seq<char>, bool)> {
    v.map_values(|p: (String, bool)| (p.0@, p.1))
}

/// Decides, for each member (name, whether it can be copied), what rewriting
/// the archive without `files` does with it; and whether the rewritten
/// archive would be empty.
pub fn plan_removal(members: &Vec<(String, bool)>, files: &Vec<String>) -> (r: (Vec<MemberAction>, bool))
    ensures
        r.0@ == member_actions(name_flags(members@), views(files@)),
        r.1 == !r.0@.contains(MemberAction::Keep),
{
    let ghost ms = name_flags(members@);
    let mut actions: Vec<MemberAction> = Vec::new();
    let mut empty = true;
    let mut i: usize = 0;
    while i < members.len()
        invariant
            i <= members.len(),
            ms == name_flags(members@),
            actions@.len() == i,
            forall|k: int| 0 <= k < i ==> actions@[k] == member_action(ms[k].0, ms[k].1, views(files@)),
            empty == !actions@.contains(MemberAction::Keep),
        decreases members.len() - i,
    {
        let (name, copyable) = (&members[i].0, members[i].1);
        proof {
            assert(ms[i as int] == (name@, copyable));
        }
        let a = decide_member(name.as_str(), copyable, files);
        let ghost before = actions@;
        actions.push(a);
        proof {
            if a == MemberAction::Keep {
                assert(actions@[i as int] == MemberAction::Keep);
            } else if before.contains(MemberAction::Keep) {
                let k = choose|k: int| 0 <= k < before.len() && before[k] == MemberAction::Keep;
                assert(actions@[k] == MemberAction::Keep);
            } else {
                assert forall|k: int| 0 <= k < actions@.len() implies actions@[k] != MemberAction::Keep by {
                    if k < i {
                        assert(actions@[k] == before[k]);
                    }
                }
            }
        }
        if a == MemberAction::Keep {
            empty = false;
        }
        i = i + 1;
    }
    proof {
        assert(actions@ =~= member_actions(ms, views(files@)));
    }
    (actions, empty)
}

/// The entry of an archive member is read back as that member of that
/// archive, when neither name holds a tab: it splits into the two names, so
/// `FileInfo::new` gives that archive and path, and `dir::crc` and
/// `dir::remove` address that member of that archive.
pub proof fn law_member_entry_read_back(container: Seq<char>, name: Seq<char>)
    requires
        !container.contains('\t'),
        !name.contains('\t'),
    ensures
        split_on(member_key_spec(container, name), '\t') == seq![container, name],
        entry_container(member_key_spec(container, name)) == Some(container),
        entry_path(member_key_spec(container, name)) == name,
{
    lemma_split_join2(container, name, '\t');
}

} // verus!
