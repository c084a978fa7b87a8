//! Files found during a scan, and groups of files with equal contents.

use vstd::prelude::*;
use crate::path::{extension, extension_of};
use crate::text::{
    all_ascii, ascii_lowercase, ends_with, has_suffix, split_char, split_on, spec_to_lowercase, to_lowercase, views,
};

verus! {

/// A file found by the scan: a plain file, or a member of an archive.
#[derive(Debug)]
pub struct FileInfo {
    /// The archive that holds the file, if it is a member of one.
    pub container: Option<String>,
    /// The path of the file (inside its archive, for a member).
    pub path: String,
    /// The CRC-32 of the file's contents.
    pub crc: u32,
}

/// The model of a `FileInfo`: container, path and CRC.
pub type FileInfoModel = (Option<Seq<char>>, Seq<char>, u32);

pub open spec fn opt_view(o: Option<String>) -> Option<Seq<char>> {
    match o {
        Some(s) => Some(s@),
        None => None,
    }
}

impl View for FileInfo {
    type V = FileInfoModel;

    open spec fn view(&self) -> FileInfoModel {
        (opt_view(self.container), self.path@, self.crc)
    }
}

/// The container named by a scan entry: the part before the tab when the
/// entry has exactly one tab.
pub open spec fn entry_container(entry: Seq<char>) -> Option<Seq<char>> {
    let parts = split_on(entry, '\t');
    if parts.len() == 2 {
        Some(parts[0])
    } else {
        None
    }
}

/// The path named by a scan entry: the part after the tab when the entry has
/// exactly one tab, otherwise the part before the first tab.
pub open spec fn entry_path(entry: Seq<char>) -> Seq<char> {
    let parts = split_on(entry, '\t');
    if parts.len() == 2 {
        parts[1]
    } else {
        parts[0]
    }
}

/// The rank of an archive by its lowercased name: zip archives first,
/// then cabinets, then everything else.
pub open spec fn ext_prior(lower: Seq<char>) -> u8 {
    if has_suffix(lower, seq!['.', 'z', 'i', 'p']) {
        8
    } else if has_suffix(lower, seq!['.', 'c', 'a', 'b']) {
        6
    } else {
        0
    }
}

/// The rank of a path whose lowercase form is `lower`.
pub fn ext_prior_of_lowercase(lower: &str) -> (r: u8)
    ensures
        r == ext_prior(lower@),
{
    let zip = ".zip";
    let cab = ".cab";
    proof {
        reveal_strlit(".zip");
        reveal_strlit(".cab");
        assert(zip@ =~= seq!['.', 'z', 'i', 'p']);
        assert(cab@ =~= seq!['.', 'c', 'a', 'b']);
    }
    if ends_with(lower, zip) {
        8
    } else if ends_with(lower, cab) {
        6
    } else {
        0
    }
}

/// The rank of an archive path, compared without regard to case.
pub fn calc_ext_prior(path: &str) -> (r: u8)
    ensures
        r == ext_prior(spec_to_lowercase(path@)),
        all_ascii(path@) ==> r == ext_prior(ascii_lowercase(path@)),
{
    let lower = to_lowercase(path);
    ext_prior_of_lowercase(lower.as_str())
}

impl FileInfo {
    /// Reads a scan entry: `container\tpath` for an archive member, or a plain
    /// path. The length is not kept.
    pub fn new(path: &str, _length: u64, crc: u32) -> (r: FileInfo)
        ensures
            r@ == (entry_container(path@), entry_path(path@), crc),
    {
        let mut parts = split_char(path, '\t');
        proof {
            crate::text::lemma_split_nonempty(path@, '\t');
            assert(views(parts@)[0] == parts@[0]@);
        }
        if parts.len() == 2 {
            proof {
                assert(views(parts@)[1] == parts@[1]@);
            }
            let p = parts.pop().unwrap();
            let c = parts.pop().unwrap();
            FileInfo { container: Some(c), path: p, crc }
        } else {
            let p = parts.swap_remove(0);
            FileInfo { container: None, path: p, crc }
        }
    }

    /// The extension of the file's path, in lowercase.
    pub fn get_extension(&self) -> (r: Option<String>)
        ensures
            opt_view(r) == match extension(self.path@) {
                Some(e) => Some(spec_to_lowercase(e)),
                None => None,
            },
    {
        match extension_of(self.path.as_str()) {
            Some(e) => Some(to_lowercase(e.as_str())),
            None => None,
        }
    }
}


/// Lexicographic order on character sequences, which is the order of
/// `str`'s `Ord` (UTF-8 byte order and code point order agree).
pub open spec fn seq_lt(a: Seq<char>, b: Seq<char>) -> bool
    decreases a.len(),
{
    if a.len() == 0 {
        b.len() > 0
    } else if b.len() == 0 {
        false
    } else if a[0] != b[0] {
        a[0] < b[0]
    } else {
        seq_lt(a.drop_first(), b.drop_first())
    }
}

pub proof fn lemma_seq_lt_irreflexive(a: Seq<char>)
    ensures
        !seq_lt(a, a),
    decreases a.len(),
{
    if a.len() > 0 {
        lemma_seq_lt_irreflexive(a.drop_first());
    }
}

pub proof fn lemma_seq_lt_trans(a: Seq<char>, b: Seq<char>, c: Seq<char>)
    requires
        seq_lt(a, b),
        seq_lt(b, c),
    ensures
        seq_lt(a, c),
    decreases a.len(),
{
    if a.len() > 0 && b.len() > 0 && c.len() > 0 && a[0] == b[0] && b[0] == c[0] {
        lemma_seq_lt_trans(a.drop_first(), b.drop_first(), c.drop_first());
    }
}

pub proof fn lemma_seq_lt_total(a: Seq<char>, b: Seq<char>)
    ensures
        a == b || seq_lt(a, b) || seq_lt(b, a),
    decreases a.len(),
{
    if a.len() > 0 && b.len() > 0 && a[0] == b[0] {
        lemma_seq_lt_total(a.drop_first(), b.drop_first());
        if a.drop_first() == b.drop_first() {
            assert(a =~= seq![a[0]] + a.drop_first());
            assert(b =~= seq![b[0]] + b.drop_first());
        }
    } else if a.len() == 0 && b.len() == 0 {
        assert(a =~= b);
    }
}

pub proof fn lemma_seq_lt_asym(a: Seq<char>, b: Seq<char>)
    ensures
        !(seq_lt(a, b) && seq_lt(b, a)),
{
    if seq_lt(a, b) && seq_lt(b, a) {
        lemma_seq_lt_trans(a, b, a);
        lemma_seq_lt_irreflexive(a);
    }
}

proof fn lemma_seq_lt_skip(a: Seq<char>, b: Seq<char>, i: int)
    requires
        0 <= i <= a.len(),
        i <= b.len(),
        a.take(i) == b.take(i),
    ensures
        seq_lt(a, b) == seq_lt(a.skip(i), b.skip(i)),
    decreases i,
{
    if i > 0 {
        assert(a[0] == a.take(i)[0]);
        assert(b[0] == b.take(i)[0]);
        assert(a.drop_first().take(i - 1) =~= a.take(i).drop_first());
        assert(b.drop_first().take(i - 1) =~= b.take(i).drop_first());
        lemma_seq_lt_skip(a.drop_first(), b.drop_first(), i - 1);
        assert(a.drop_first().skip(i - 1) =~= a.skip(i));
        assert(b.drop_first().skip(i - 1) =~= b.skip(i));
    } else {
        assert(a.skip(0) =~= a);
        assert(b.skip(0) =~= b);
    }
}

/// `a < b` for strings.
pub fn path_less(a: &str, b: &str) -> (r: bool)
    ensures
        r == seq_lt(a@, b@),
{
    let n = a.unicode_len();
    let m = b.unicode_len();
    let mut i: usize = 0;
    proof {
        assert(a@.take(0) =~= b@.take(0));
    }
    while i < n && i < m
        invariant
            n == a@.len(),
            m == b@.len(),
            i <= n,
            i <= m,
            a@.take(i as int) == b@.take(i as int),
        decreases n - i,
    {
        let ca = a.get_char(i);
        let cb = b.get_char(i);
        if ca != cb {
            proof {
                lemma_seq_lt_skip(a@, b@, i as int);
                assert(a@.skip(i as int)[0] == ca);
                assert(b@.skip(i as int)[0] == cb);
            }
            return ca < cb;
        }
        proof {
            assert(a@.take(i + 1) =~= a@.take(i as int).push(ca));
            assert(b@.take(i + 1) =~= b@.take(i as int).push(cb));
        }
        i = i + 1;
    }
    proof {
        lemma_seq_lt_skip(a@, b@, i as int);
    }
    i < m
}

/// The rank of a file: the rank of its archive, or 0 for a plain file.
pub open spec fn priority(f: FileInfoModel) -> u8 {
    match f.0 {
        Some(c) => ext_prior(spec_to_lowercase(c)),
        None => 0,
    }
}

/// The rank table: only a name ending in `.zip` ranks 8, only one ending in
/// `.cab` ranks 6, and every other name, whatever archive it names, ranks 0,
/// as a plain file does.
pub proof fn law_rank_table(lower: Seq<char>)
    ensures
        ext_prior(lower) == 8 <==> has_suffix(lower, seq!['.', 'z', 'i', 'p']),
        ext_prior(lower) == 6 <==> has_suffix(lower, seq!['.', 'c', 'a', 'b']),
        ext_prior(lower) == 0 <==> !has_suffix(lower, seq!['.', 'z', 'i', 'p']) && !has_suffix(
            lower,
            seq!['.', 'c', 'a', 'b'],
        ),
{
    if has_suffix(lower, seq!['.', 'z', 'i', 'p']) && has_suffix(lower, seq!['.', 'c', 'a', 'b']) {
        assert(lower.skip(lower.len() - 4)[1] == 'z');
        assert(lower.skip(lower.len() - 4)[1] == 'c');
    }
}

/// The file is a member of an archive whose lowercased name ends in `suffix`.
pub open spec fn archive_ends_in(f: FileInfoModel, suffix: Seq<char>) -> bool {
    match f.0 {
        Some(c) => has_suffix(spec_to_lowercase(c), suffix),
        None => false,
    }
}

/// A plain file ranks 0, and so does a member of an archive whose lowercased
/// name ends in neither `.zip` nor `.cab`; a zip member goes before any file
/// outside a zip, and a cabinet member before any file outside a zip or a
/// cabinet, whatever their paths.
pub proof fn law_archive_ranks(f: FileInfoModel, g: FileInfoModel)
    ensures
        f.0 is None ==> priority(f) == 0,
        !archive_ends_in(f, seq!['.', 'z', 'i', 'p']) && !archive_ends_in(f, seq!['.', 'c', 'a', 'b'])
            ==> priority(f) == 0,
        archive_ends_in(f, seq!['.', 'z', 'i', 'p']) && !archive_ends_in(g, seq!['.', 'z', 'i', 'p'])
            ==> goes_before(f, g),
        archive_ends_in(f, seq!['.', 'c', 'a', 'b']) && !archive_ends_in(g, seq!['.', 'z', 'i', 'p'])
            && !archive_ends_in(g, seq!['.', 'c', 'a', 'b']) ==> goes_before(f, g),
{
    match f.0 {
        Some(c) => law_rank_table(spec_to_lowercase(c)),
        None => {},
    }
    match g.0 {
        Some(d) => law_rank_table(spec_to_lowercase(d)),
        None => {},
    }
}

/// `a` comes strictly before `b` in a sorted group: a higher rank first, then
/// paths in ascending order.
pub open spec fn goes_before(a: FileInfoModel, b: FileInfoModel) -> bool {
    priority(a) > priority(b) || (priority(a) == priority(b) && seq_lt(a.1, b.1))
}

/// No element goes before an earlier one.
pub open spec fn sorted_files(s: Seq<FileInfoModel>) -> bool {
    forall|i: int, j: int| 0 <= i < j < s.len() ==> !goes_before(#[trigger] s[j], #[trigger] s[i])
}

/// Some position of `perm` holds `t`.
pub open spec fn hits(perm: Seq<int>, t: int) -> bool {
    exists|k: int| 0 <= k < perm.len() && perm[k] == t
}

/// `out` is `inp` sorted stably: `out[k] == inp[perm[k]]` for an injective
/// `perm` into the indices of `inp`, `out` is sorted, and elements that are
/// equal for the order keep the order they had in `inp`.
pub open spec fn stable_sort_of(out: Seq<FileInfoModel>, inp: Seq<FileInfoModel>, perm: Seq<int>) -> bool {
    &&& out.len() == inp.len()
    &&& perm.len() == inp.len()
    &&& forall|k: int| 0 <= k < perm.len() ==> 0 <= #[trigger] perm[k] < inp.len() && out[k] == inp[perm[k]]
    &&& forall|k: int, l: int| 0 <= k < l < perm.len() ==> #[trigger] perm[k] != #[trigger] perm[l]
    &&& forall|t: int| 0 <= t < inp.len() ==> #[trigger] hits(perm, t)
    &&& sorted_files(out)
    &&& forall|k: int, l: int|
        0 <= k < l < out.len() && !goes_before(#[trigger] out[k], #[trigger] out[l]) ==> perm[k] < perm[l]
}

/// The models of a sequence of files.
pub open spec fn models(v: Seq<FileInfo>) -> Seq<FileInfoModel> {
    v.map_values(|f: FileInfo| f@)
}

pub proof fn lemma_goes_before_asym(a: FileInfoModel, b: FileInfoModel)
    ensures
        !(goes_before(a, b) && goes_before(b, a)),
{
    lemma_seq_lt_asym(a.1, b.1);
}

/// "Not after" is transitive.
pub proof fn lemma_not_after_trans(a: FileInfoModel, b: FileInfoModel, c: FileInfoModel)
    requires
        !goes_before(b, a),
        !goes_before(c, b),
    ensures
        !goes_before(c, a),
{
    lemma_seq_lt_total(a.1, b.1);
    lemma_seq_lt_total(b.1, c.1);
    lemma_seq_lt_total(a.1, c.1);
    if seq_lt(c.1, a.1) && priority(a) == priority(c) {
        if seq_lt(a.1, b.1) && seq_lt(b.1, c.1) {
            lemma_seq_lt_trans(a.1, b.1, c.1);
            lemma_seq_lt_asym(a.1, c.1);
        }
        if seq_lt(a.1, b.1) && b.1 == c.1 {
            lemma_seq_lt_asym(a.1, c.1);
        }
        if a.1 == b.1 && seq_lt(b.1, c.1) {
            lemma_seq_lt_asym(a.1, c.1);
        }
        if a.1 == b.1 && b.1 == c.1 {
            lemma_seq_lt_irreflexive(a.1);
        }
    }
}

proof fn lemma_insert_keeps_stable(
    cur: Seq<FileInfoModel>,
    inp: Seq<FileInfoModel>,
    perm: Seq<int>,
    i: int,
    j: int,
    x: FileInfoModel,
)
    requires
        stable_sort_of(cur, inp.take(i), perm),
        0 <= i < inp.len(),
        x == inp[i],
        0 <= j <= cur.len(),
        forall|k: int| 0 <= k < j ==> !goes_before(x, #[trigger] cur[k]),
        forall|k: int| j <= k < cur.len() ==> goes_before(x, #[trigger] cur[k]),
    ensures
        stable_sort_of(cur.insert(j, x), inp.take(i + 1), perm.insert(j, i)),
{
    let nw = cur.insert(j, x);
    let np = perm.insert(j, i);
    let ti = inp.take(i);
    let tn = inp.take(i + 1);
    assert forall|k: int| 0 <= k < np.len() implies 0 <= #[trigger] np[k] < tn.len() && nw[k] == tn[np[k]] by {
        if k < j {
            assert(np[k] == perm[k] && nw[k] == cur[k]);
            assert(cur[k] == ti[perm[k]]);
        } else if k > j {
            assert(np[k] == perm[k - 1] && nw[k] == cur[k - 1]);
            assert(cur[k - 1] == ti[perm[k - 1]]);
        }
    }
    assert forall|t: int| 0 <= t < tn.len() implies #[trigger] hits(np, t) by {
        if t == i {
            assert(np[j] == i);
        } else {
            assert(hits(perm, t));
            let k = choose|k: int| 0 <= k < perm.len() && perm[k] == t;
            if k < j {
                assert(np[k] == t);
            } else {
                assert(np[k + 1] == t);
            }
        }
    }
    assert forall|k: int, l: int| 0 <= k < l < np.len() implies #[trigger] np[k] != #[trigger] np[l] by {
        if k < j && l < j {
            assert(np[k] == perm[k] && np[l] == perm[l]);
        } else if k < j && l == j {
            assert(np[k] == perm[k]);
        } else if k < j && l > j {
            assert(np[k] == perm[k] && np[l] == perm[l - 1]);
        } else if k == j {
            assert(np[l] == perm[l - 1]);
        } else {
            assert(np[k] == perm[k - 1] && np[l] == perm[l - 1]);
        }
    }
    assert forall|k: int, l: int| 0 <= k < l < nw.len() implies !goes_before(#[trigger] nw[l], #[trigger] nw[k]) by {
        if k < j && l < j {
            assert(nw[k] == cur[k] && nw[l] == cur[l]);
        } else if k < j && l == j {
            assert(nw[k] == cur[k]);
        } else if k < j && l > j {
            assert(nw[k] == cur[k] && nw[l] == cur[l - 1]);
        } else if k == j {
            assert(nw[l] == cur[l - 1]);
            lemma_goes_before_asym(x, cur[l - 1]);
        } else {
            assert(nw[k] == cur[k - 1] && nw[l] == cur[l - 1]);
        }
    }
    assert forall|k: int, l: int|
        0 <= k < l < nw.len() && !goes_before(#[trigger] nw[k], #[trigger] nw[l]) implies np[k] < np[l] by {
        if k < j && l < j {
            assert(nw[k] == cur[k] && nw[l] == cur[l]);
            assert(np[k] == perm[k] && np[l] == perm[l]);
        } else if k < j && l == j {
            assert(np[k] == perm[k]);
        } else if k < j && l > j {
            assert(nw[k] == cur[k] && nw[l] == cur[l - 1]);
            assert(np[k] == perm[k] && np[l] == perm[l - 1]);
        } else if k == j {
            assert(nw[l] == cur[l - 1]);
        } else {
            assert(nw[k] == cur[k - 1] && nw[l] == cur[l - 1]);
            assert(np[k] == perm[k - 1] && np[l] == perm[l - 1]);
        }
    }
}

proof fn lemma_increasing_perm_is_identity(perm: Seq<int>, n: int)
    requires
        perm.len() == n,
        forall|k: int| 0 <= k < n ==> 0 <= #[trigger] perm[k] < n,
        forall|k: int, l: int| 0 <= k < l < n ==> #[trigger] perm[k] < #[trigger] perm[l],
    ensures
        forall|k: int| 0 <= k < n ==> #[trigger] perm[k] == k,
{
    assert forall|k: int| 0 <= k < n implies perm[k] >= k by {
        lemma_increasing_lower(perm, n, k);
    }
    assert forall|k: int| 0 <= k < n implies perm[k] <= k by {
        lemma_increasing_upper(perm, n, k);
    }
}

proof fn lemma_increasing_lower(perm: Seq<int>, n: int, k: int)
    requires
        perm.len() == n,
        0 <= k < n,
        forall|j: int| 0 <= j < n ==> 0 <= #[trigger] perm[j] < n,
        forall|a: int, b: int| 0 <= a < b < n ==> #[trigger] perm[a] < #[trigger] perm[b],
    ensures
        perm[k] >= k,
    decreases k,
{
    if k > 0 {
        lemma_increasing_lower(perm, n, k - 1);
        assert(perm[k - 1] < perm[k]);
    }
}

proof fn lemma_increasing_upper(perm: Seq<int>, n: int, k: int)
    requires
        perm.len() == n,
        0 <= k < n,
        forall|j: int| 0 <= j < n ==> 0 <= #[trigger] perm[j] < n,
        forall|a: int, b: int| 0 <= a < b < n ==> #[trigger] perm[a] < #[trigger] perm[b],
    ensures
        perm[k] <= k,
    decreases n - k,
{
    if k < n - 1 {
        lemma_increasing_upper(perm, n, k + 1);
        assert(perm[k] < perm[k + 1]);
    }
}

/// Sorting a group that is already sorted changes nothing: the stable sort of
/// a sorted sequence is that sequence.
pub proof fn law_sorting_sorted_is_identity(out: Seq<FileInfoModel>, inp: Seq<FileInfoModel>, perm: Seq<int>)
    requires
        sorted_files(inp),
        stable_sort_of(out, inp, perm),
    ensures
        out == inp,
{
    let n = inp.len() as int;
    assert forall|k: int, l: int| 0 <= k < l < n implies #[trigger] perm[k] < #[trigger] perm[l] by {
        if !goes_before(out[k], out[l]) {
        } else {
            assert(perm[k] != perm[l]);
            if perm[l] < perm[k] {
                assert(out[k] == inp[perm[k]] && out[l] == inp[perm[l]]);
                assert(!goes_before(inp[perm[k]], inp[perm[l]]));
            }
        }
    }
    lemma_increasing_perm_is_identity(perm, n);
    assert forall|k: int| 0 <= k < n implies out[k] == inp[k] by {
        assert(perm[k] == k);
    }
    assert(out =~= inp);
}

/// A group of files with the same length and CRC.
#[derive(Debug)]
pub struct DuplicateGroup {
    pub files: Vec<FileInfo>,
}

impl View for DuplicateGroup {
    type V = Seq<FileInfoModel>;

    open spec fn view(&self) -> Seq<FileInfoModel> {
        models(self.files@)
    }
}

fn file_priority(f: &FileInfo) -> (r: u8)
    ensures
        r == priority(f@),
{
    match &f.container {
        Some(c) => calc_ext_prior(c.as_str()),
        None => 0,
    }
}

impl DuplicateGroup {
    /// A group holding `files`; the length and CRC are not kept.
    pub fn new(_length: u64, _crc: u32, files: Vec<FileInfo>) -> (r: DuplicateGroup)
        ensures
            r.files@ == files@,
    {
        DuplicateGroup { files }
    }

    /// Sorts the files stably: files in zip archives first, then files in
    /// cabinets, then the rest; files of equal rank by path.
    pub fn sort_files(&mut self)
        ensures
            exists|perm: Seq<int>| stable_sort_of(final(self)@, old(self)@, perm),
    {
        let mut input: Vec<FileInfo> = Vec::new();
        std::mem::swap(&mut input, &mut self.files);
        let ghost inp = models(input@);
        let n = input.len();
        let mut out: Vec<FileInfo> = Vec::new();
        let mut keys: Vec<u8> = Vec::new();
        let ghost mut perm: Seq<int> = Seq::empty();
        let mut i: usize = 0;
        proof {
            assert(models(input@) =~= inp.skip(0));
        }
        while i < n
            invariant
                n == inp.len(),
                i <= n,
                models(input@) == inp.skip(i as int),
                keys@.len() == out@.len(),
                forall|k: int| 0 <= k < out@.len() ==> keys@[k] == priority(#[trigger] out@[k]@),
                stable_sort_of(models(out@), inp.take(i as int), perm),
            decreases n - i,
        {
            let ghost cur = models(out@);
            let ghost old_input = models(input@);
            let ghost old_vec = input@;
            proof {
                assert(old_input.len() == old_vec.len());
                assert(old_input[0] == old_vec[0]@);
            }
            let x = input.remove(0);
            proof {
                assert(x@ == old_input[0]);
                assert(x@ == inp[i as int]);
                assert forall|k: int| 0 <= k < input@.len() implies models(input@)[k] == inp.skip(i + 1)[k] by {
                    assert(input@[k] == old_vec[k + 1]);
                    assert(old_input[k + 1] == old_vec[k + 1]@);
                }
                assert(models(input@) =~= inp.skip(i + 1));
            }
            let kx = file_priority(&x);
            let mut j: usize = out.len();
            while j > 0 && (kx > keys[j - 1] || (kx == keys[j - 1] && path_less(x.path.as_str(), out[j - 1].path.as_str())))
                invariant
                    j <= out@.len(),
                    cur == models(out@),
                    keys@.len() == out@.len(),
                    forall|k: int| 0 <= k < out@.len() ==> keys@[k] == priority(#[trigger] out@[k]@),
                    kx == priority(x@),
                    forall|k: int| j <= k < cur.len() ==> goes_before(x@, #[trigger] cur[k]),
                decreases j,
            {
                proof {
                    assert(keys@[j - 1] == priority(out@[j - 1]@));
                    assert(cur[j - 1] == out@[j - 1]@);
                }
                j = j - 1;
            }
            proof {
                if j > 0 {
                    assert(keys@[j - 1] == priority(out@[j - 1]@));
                    assert(cur[j - 1] == out@[j - 1]@);
                    assert(!goes_before(x@, cur[j - 1]));
                    assert forall|k: int| 0 <= k < j implies !goes_before(x@, #[trigger] cur[k]) by {
                        if k < j - 1 {
                            assert(!goes_before(cur[j - 1], cur[k]));
                            lemma_not_after_trans(cur[k], cur[j - 1], x@);
                        }
                    }
                }
            }
            let ghost xm = x@;
            let ghost old_out = out@;
            let ghost old_keys = keys@;
            out.insert(j, x);
            keys.insert(j, kx);
            proof {
                assert forall|k: int| 0 <= k < out@.len() implies keys@[k] == priority(#[trigger] out@[k]@) by {
                    if k < j {
                        assert(out@[k] == old_out[k] && keys@[k] == old_keys[k]);
                    } else if k > j {
                        assert(out@[k] == old_out[k - 1] && keys@[k] == old_keys[k - 1]);
                        assert(keys@[k] == priority(old_out[k - 1]@));
                    }
                }
                assert(models(out@) =~= cur.insert(j as int, xm));
                lemma_insert_keeps_stable(cur, inp, perm, i as int, j as int, xm);
                perm = perm.insert(j as int, i as int);
            }
            i = i + 1;
        }
        proof {
            assert(inp.take(n as int) =~= inp);
        }
        self.files = out;
        proof {
            assert(inp == old(self)@);
            assert(stable_sort_of(self@, old(self)@, perm));
        }
    }
}

} // verus!
