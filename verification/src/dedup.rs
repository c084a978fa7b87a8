//! Deciding which duplicates to remove: files of one length are grouped by
//! CRC, each group keeps one file, and the others are removed from disk or
//! from their archives.

use vstd::prelude::*;
use crate::file_info::{
    entry_container, entry_path, goes_before, hits, models, priority, stable_sort_of, DuplicateGroup,
    FileInfo, FileInfoModel,
};
use crate::path::extension;
use crate::text::{spec_to_lowercase, str_eq, vec_contains, views};

verus! {

/// The files of `s` whose CRC is `c`, in order.
pub open spec fn with_crc(s: Seq<FileInfoModel>, c: u32) -> Seq<FileInfoModel>
    decreases s.len(),
{
    if s.len() == 0 {
        Seq::empty()
    } else {
        let pre = with_crc(s.drop_last(), c);
        if s.last().2 == c {
            pre.push(s.last())
        } else {
            pre
        }
    }
}

proof fn lemma_with_crc_absent(s: Seq<FileInfoModel>, c: u32)
    requires
        forall|k: int| 0 <= k < s.len() ==> (#[trigger] s[k]).2 != c,
    ensures
        with_crc(s, c) == Seq::<FileInfoModel>::empty(),
    decreases s.len(),
{
    if s.len() > 0 {
        assert(s.last() == s[s.len() - 1]);
        lemma_with_crc_absent(s.drop_last(), c);
    }
}

/// Files of one length that share a CRC.
#[derive(Debug)]
pub struct CrcGroup {
    pub crc: u32,
    pub files: Vec<FileInfo>,
}

/// The model of a group: its CRC and its files.
pub type GroupModel = (u32, Seq<FileInfoModel>);

pub open spec fn group_models(groups: Seq<CrcGroup>) -> Seq<GroupModel> {
    groups.map_values(|g: CrcGroup| (g.crc, models(g.files@)))
}

/// The groups cover `s`: every CRC of `s` has a group, every group's CRC
/// occurs in `s`, no CRC has two groups, and each group holds exactly the
/// files of `s` with its CRC, in their order in `s`.
pub open spec fn groups_of(gm: Seq<GroupModel>, s: Seq<FileInfoModel>) -> bool {
    &&& forall|a: int, b: int| 0 <= a < b < gm.len() ==> (#[trigger] gm[a]).0 != (#[trigger] gm[b]).0
    &&& forall|a: int| 0 <= a < gm.len() ==> (#[trigger] gm[a]).1 == with_crc(s, gm[a].0)
    &&& forall|k: int| 0 <= k < s.len() ==> #[trigger] has_group(gm, s[k].2)
    &&& forall|a: int| 0 <= a < gm.len() ==> #[trigger] crc_occurs(s, gm[a].0)
}

/// Some group has CRC `c`.
pub open spec fn has_group(gm: Seq<GroupModel>, c: u32) -> bool {
    exists|a: int| 0 <= a < gm.len() && gm[a].0 == c
}

/// Some file of `s` has CRC `c`.
pub open spec fn crc_occurs(s: Seq<FileInfoModel>, c: u32) -> bool {
    exists|k: int| 0 <= k < s.len() && s[k].2 == c
}

proof fn lemma_groups_add_existing(gm: Seq<GroupModel>, s: Seq<FileInfoModel>, x: FileInfoModel, j: int)
    requires
        groups_of(gm, s),
        0 <= j < gm.len(),
        gm[j].0 == x.2,
    ensures
        groups_of(gm.update(j, (gm[j].0, gm[j].1.push(x))), s.push(x)),
{
    let ng = gm.update(j, (gm[j].0, gm[j].1.push(x)));
    let ns = s.push(x);
    assert(ns.drop_last() =~= s);
    assert forall|a: int| 0 <= a < ng.len() implies (#[trigger] ng[a]).1 == with_crc(ns, ng[a].0) by {
        if a != j {
            assert(ng[a] == gm[a]);
        }
    }
    assert forall|k: int| 0 <= k < ns.len() implies #[trigger] has_group(ng, ns[k].2) by {
        if k < s.len() {
            assert(ns[k] == s[k]);
            assert(has_group(gm, s[k].2));
            let a = choose|a: int| 0 <= a < gm.len() && gm[a].0 == s[k].2;
            assert(ng[a].0 == gm[a].0);
        } else {
            assert(ng[j].0 == ns[k].2);
        }
    }
    assert forall|a: int| 0 <= a < ng.len() implies #[trigger] crc_occurs(ns, ng[a].0) by {
        assert(crc_occurs(s, gm[a].0));
        let k = choose|k: int| 0 <= k < s.len() && s[k].2 == gm[a].0;
        assert(ns[k] == s[k]);
        assert(ng[a].0 == gm[a].0);
    }
    assert forall|a: int, b: int| 0 <= a < b < ng.len() implies (#[trigger] ng[a]).0 != (#[trigger] ng[b]).0 by {
        assert(ng[a].0 == gm[a].0 && ng[b].0 == gm[b].0);
    }
}

proof fn lemma_groups_add_new(gm: Seq<GroupModel>, s: Seq<FileInfoModel>, x: FileInfoModel)
    requires
        groups_of(gm, s),
        forall|a: int| 0 <= a < gm.len() ==> (#[trigger] gm[a]).0 != x.2,
    ensures
        groups_of(gm.push((x.2, seq![x])), s.push(x)),
{
    let ng = gm.push((x.2, seq![x]));
    let ns = s.push(x);
    assert(ns.drop_last() =~= s);
    assert forall|k: int| 0 <= k < s.len() implies (#[trigger] s[k]).2 != x.2 by {
        assert(has_group(gm, s[k].2));
    }
    lemma_with_crc_absent(s, x.2);
    assert(with_crc(ns, x.2) =~= seq![x]);
    assert forall|a: int| 0 <= a < ng.len() implies (#[trigger] ng[a]).1 == with_crc(ns, ng[a].0) by {
        if a < gm.len() {
            assert(ng[a] == gm[a]);
        }
    }
    assert forall|k: int| 0 <= k < ns.len() implies #[trigger] has_group(ng, ns[k].2) by {
        if k < s.len() {
            assert(ns[k] == s[k]);
            assert(has_group(gm, s[k].2));
            let a = choose|a: int| 0 <= a < gm.len() && gm[a].0 == s[k].2;
            assert(ng[a] == gm[a]);
        } else {
            assert(ng[gm.len() as int].0 == ns[k].2);
        }
    }
    assert forall|a: int| 0 <= a < ng.len() implies #[trigger] crc_occurs(ns, ng[a].0) by {
        if a < gm.len() {
            assert(crc_occurs(s, gm[a].0));
            let k = choose|k: int| 0 <= k < s.len() && s[k].2 == gm[a].0;
            assert(ns[k] == s[k]);
            assert(ng[a] == gm[a]);
        } else {
            assert(ns[s.len() as int] == x);
        }
    }
}

/// Groups `files` by CRC, keeping the order of the files within each group.
pub fn group_by_crc(files: Vec<FileInfo>) -> (groups: Vec<CrcGroup>)
    ensures
        groups_of(group_models(groups@), models(files@)),
{
    let ghost inp = models(files@);
    let mut input = files;
    let n = input.len();
    let mut groups: Vec<CrcGroup> = Vec::new();
    let mut i: usize = 0;
    proof {
        assert(models(input@) =~= inp.skip(0));
        assert(inp.take(0) =~= Seq::<FileInfoModel>::empty());
        assert(group_models(groups@) =~= Seq::<GroupModel>::empty());
    }
    while i < n
        invariant
            n == inp.len(),
            i <= n,
            models(input@) == inp.skip(i as int),
            groups_of(group_models(groups@), inp.take(i as int)),
        decreases n - i,
    {
        let ghost pre = inp.take(i as int);
        let ghost gm = group_models(groups@);
        let ghost old_vec = input@;
        proof {
            assert(models(old_vec).len() == old_vec.len());
            assert(models(old_vec)[0] == old_vec[0]@);
        }
        let x = input.remove(0);
        proof {
            assert(x@ == inp[i as int]);
            assert forall|k: int| 0 <= k < input@.len() implies models(input@)[k] == inp.skip(i + 1)[k] by {
                assert(input@[k] == old_vec[k + 1]);
                assert(models(old_vec)[k + 1] == old_vec[k + 1]@);
            }
            assert(models(input@) =~= inp.skip(i + 1));
            assert(inp.take(i + 1) =~= pre.push(x@));
        }
        let mut j: usize = 0;
        while j < groups.len() && groups[j].crc != x.crc
            invariant
                j <= groups.len(),
                gm == group_models(groups@),
                forall|a: int| 0 <= a < j ==> (#[trigger] gm[a]).0 != x.crc,
            decreases groups.len() - j,
        {
            proof {
                assert(gm[j as int].0 == groups@[j as int].crc);
            }
            j = j + 1;
        }
        let ghost xm = x@;
        if j < groups.len() {
            proof {
                assert(gm[j as int].0 == groups@[j as int].crc);
            }
            let ghost old_groups = groups@;
            let mut g = groups.remove(j);
            let ghost gf = g.files@;
            g.files.push(x);
            proof {
                assert(models(g.files@) =~= models(gf).push(xm));
            }
            groups.insert(j, g);
            proof {
                lemma_groups_add_existing(gm, pre, xm, j as int);
                assert(group_models(groups@) =~= gm.update(j as int, (gm[j as int].0, gm[j as int].1.push(xm))));
            }
        } else {
            let c = x.crc;
            let mut v: Vec<FileInfo> = Vec::new();
            v.push(x);
            proof {
                assert(models(v@) =~= seq![xm]);
            }
            groups.push(CrcGroup { crc: c, files: v });
            proof {
                lemma_groups_add_new(gm, pre, xm);
                assert(group_models(groups@) =~= gm.push((c, seq![xm])));
            }
        }
        i = i + 1;
    }
    proof {
        assert(inp.take(n as int) =~= inp);
    }
    groups
}


/// What happens to a group of duplicates: one file is kept, and the others
/// are removed (from their archives, or moved to the backup when they are
/// plain files), in the order given.
#[derive(Debug)]
pub struct Resolution {
    pub keep: FileInfo,
    pub remove: Vec<FileInfo>,
}

/// `keep` and `remove` resolve a group whose stable sort is `sorted`: the
/// last file in the sorted order is kept, the others are removed in that
/// order.
pub open spec fn resolves(keep: FileInfoModel, remove: Seq<FileInfoModel>, sorted: Seq<FileInfoModel>) -> bool {
    &&& keep == sorted.last()
    &&& remove == sorted.drop_last()
}

/// `keep` and `remove` resolve `group`: for the stable sort of the group, the
/// last file is kept and the others are removed in order.
pub open spec fn resolves_group(keep: FileInfoModel, remove: Seq<FileInfoModel>, group: Seq<FileInfoModel>) -> bool {
    exists|sorted: Seq<FileInfoModel>, perm: Seq<int>| stable_sort_of(sorted, group, perm) && resolves(keep, remove, sorted)
}

/// Decides a group of duplicates: the files are sorted with
/// `DuplicateGroup::sort_files`, the last one is kept and the others removed.
pub fn resolve_group(group: DuplicateGroup) -> (r: Resolution)
    requires
        group@.len() > 0,
    ensures
        resolves_group(r.keep@, models(r.remove@), group@),
{
    let ghost g0 = group@;
    let mut g = group;
    g.sort_files();
    let ghost sorted = g@;
    let ghost perm = choose|perm: Seq<int>| stable_sort_of(sorted, g0, perm);
    let ghost gv = g.files@;
    proof {
        assert(gv.len() == sorted.len());
        assert(sorted.last() == gv[gv.len() - 1]@);
    }
    let keep = g.files.pop().unwrap();
    let r = Resolution { keep, remove: g.files };
    proof {
        assert(models(r.remove@) =~= sorted.drop_last());
        assert(stable_sort_of(sorted, g0, perm));
        assert(resolves(r.keep@, models(r.remove@), sorted));
        assert(resolves_group(r.keep@, models(r.remove@), g0));
    }
    r
}

/// The model of a resolved group: its CRC, the kept file, the removed files.
pub type ResolvedModel = (u32, FileInfoModel, Seq<FileInfoModel>);

pub open spec fn resolved_models(v: Seq<(u32, Resolution)>) -> Seq<ResolvedModel> {
    v.map_values(|p: (u32, Resolution)| (p.0, p.1.keep@, models(p.1.remove@)))
}

/// `out` resolves the duplicates among `s`, files of one length: exactly the
/// CRCs that more than one file of `s` has, each once, each with its group
/// resolved.
pub open spec fn resolves_duplicates(out: Seq<ResolvedModel>, s: Seq<FileInfoModel>) -> bool {
    &&& forall|o: int| 0 <= o < out.len() ==> with_crc(s, (#[trigger] out[o]).0).len() > 1 && resolves_group(out[o].1, out[o].2, with_crc(s, out[o].0))
    &&& forall|o: int, p: int| 0 <= o < p < out.len() ==> (#[trigger] out[o]).0 != (#[trigger] out[p]).0
    &&& forall|k: int| 0 <= k < s.len() && with_crc(s, (#[trigger] s[k]).2).len() > 1 ==> has_resolution(out, s[k].2)
}

/// Some group of `out` has CRC `c`.
pub open spec fn has_resolution(out: Seq<ResolvedModel>, c: u32) -> bool {
    exists|o: int| 0 <= o < out.len() && out[o].0 == c
}

/// Finds the duplicates among `files`, all of one length: the files are
/// grouped by CRC, and each group of more than one file is resolved.
pub fn resolve_duplicates(files: Vec<FileInfo>) -> (out: Vec<(u32, Resolution)>)
    ensures
        resolves_duplicates(resolved_models(out@), models(files@)),
{
    let ghost inp = models(files@);
    let mut groups = group_by_crc(files);
    let ghost gm = group_models(groups@);
    let n = groups.len();
    let mut out: Vec<(u32, Resolution)> = Vec::new();
    let ghost mut idx: Seq<int> = Seq::empty();
    let mut i: usize = 0;
    proof {
        assert(gm.len() == groups@.len());
        assert(group_models(groups@) =~= gm.skip(0));
        assert(resolved_models(out@) =~= Seq::<ResolvedModel>::empty());
    }
    while i < n
        invariant
            n == gm.len(),
            i <= n,
            groups_of(gm, inp),
            group_models(groups@) == gm.skip(i as int),
            idx.len() == out@.len(),
            forall|o: int| 0 <= o < idx.len() ==> 0 <= #[trigger] idx[o] < i && gm[idx[o]].0 == resolved_models(out@)[o].0,
            forall|o: int, p: int| 0 <= o < p < idx.len() ==> #[trigger] idx[o] < #[trigger] idx[p],
            forall|o: int| 0 <= o < out@.len() ==> with_crc(inp, (#[trigger] resolved_models(out@)[o]).0).len() > 1
                && resolves_group(resolved_models(out@)[o].1, resolved_models(out@)[o].2, with_crc(inp, resolved_models(out@)[o].0)),
            forall|a: int| 0 <= a < i && (#[trigger] gm[a]).1.len() > 1 ==> has_resolution(resolved_models(out@), gm[a].0),
        decreases n - i,
    {
        let ghost old_vec = groups@;
        proof {
            assert(group_models(old_vec).len() == old_vec.len());
            assert(group_models(old_vec)[0] == gm[i as int]);
            assert(group_models(old_vec)[0] == (old_vec[0].crc, models(old_vec[0].files@)));
        }
        let g = groups.remove(0);
        proof {
            assert(g.crc == gm[i as int].0);
            assert(models(g.files@) == gm[i as int].1);
        }
        proof {
            assert(group_models(groups@) =~= gm.skip(i + 1)) by {
                assert forall|k: int| 0 <= k < groups@.len() implies group_models(groups@)[k] == gm.skip(i + 1)[k] by {
                    assert(groups@[k] == old_vec[k + 1]);
                    assert(group_models(old_vec)[k + 1] == gm.skip(i as int)[k + 1]);
                }
            }
            assert(models(g.files@) == with_crc(inp, g.crc));
        }
        let ghost before = resolved_models(out@);
        if g.files.len() > 1 {
            let c = g.crc;
            let r = resolve_group(DuplicateGroup::new(0, c, g.files));
            out.push((c, r));
            proof {
                let nw = resolved_models(out@);
                assert(nw =~= before.push((c, r.keep@, models(r.remove@))));
                let old_idx = idx;
                idx = idx.push(i as int);
                assert forall|o: int| 0 <= o < idx.len() implies 0 <= #[trigger] idx[o] < i + 1 && gm[idx[o]].0 == nw[o].0 by {
                    if o < old_idx.len() {
                        assert(idx[o] == old_idx[o]);
                        assert(nw[o] == before[o]);
                    }
                }
                assert forall|o: int, p: int| 0 <= o < p < idx.len() implies #[trigger] idx[o] < #[trigger] idx[p] by {
                    if p < old_idx.len() {
                        assert(idx[o] == old_idx[o] && idx[p] == old_idx[p]);
                    } else {
                        assert(idx[o] == old_idx[o]);
                    }
                }
                assert forall|a: int| 0 <= a < i + 1 && (#[trigger] gm[a]).1.len() > 1 implies has_resolution(nw, gm[a].0) by {
                    if a < i {
                        assert(has_resolution(before, gm[a].0));
                        let o = choose|o: int| 0 <= o < before.len() && before[o].0 == gm[a].0;
                        assert(nw[o] == before[o]);
                    } else {
                        assert(nw[before.len() as int].0 == gm[a].0);
                    }
                }
                assert forall|o: int| 0 <= o < out@.len() implies with_crc(inp, (#[trigger] nw[o]).0).len() > 1
                    && resolves_group(nw[o].1, nw[o].2, with_crc(inp, nw[o].0)) by {
                    if o < before.len() {
                        assert(nw[o] == before[o]);
                    }
                }
            }
        } else {
            proof {
                assert(resolved_models(out@) == before);
                assert(gm[i as int].1.len() <= 1);
            }
        }
        i = i + 1;
    }
    proof {
        let res = resolved_models(out@);
        assert forall|o: int, p: int| 0 <= o < p < res.len() implies (#[trigger] res[o]).0 != (#[trigger] res[p]).0 by {
            assert(idx[o] < idx[p]);
            assert(gm[idx[o]].0 == res[o].0);
            assert(gm[idx[p]].0 == res[p].0);
        }
        assert forall|k: int| 0 <= k < inp.len() && with_crc(inp, (#[trigger] inp[k]).2).len() > 1 implies has_resolution(res, inp[k].2) by {
            assert(has_group(gm, inp[k].2));
            let a = choose|a: int| 0 <= a < gm.len() && gm[a].0 == inp[k].2;
            assert(gm[a].1 == with_crc(inp, gm[a].0));
        }
    }
    out
}

/// Nothing is lost or duplicated: each file of the group is either the kept
/// one or one of the removed ones, and there are one fewer removals than
/// files.
pub proof fn law_resolution_covers_group(
    keep: FileInfoModel,
    remove: Seq<FileInfoModel>,
    sorted: Seq<FileInfoModel>,
    group: Seq<FileInfoModel>,
    perm: Seq<int>,
)
    requires
        stable_sort_of(sorted, group, perm),
        resolves(keep, remove, sorted),
        group.len() > 0,
    ensures
        remove.len() == group.len() - 1,
        forall|t: int| 0 <= t < group.len() ==> #[trigger] group[t] == keep || remove.contains(group[t]),
{
    assert forall|t: int| 0 <= t < group.len() implies #[trigger] group[t] == keep || remove.contains(group[t]) by {
        assert(hits(perm, t));
        let k = choose|k: int| 0 <= k < perm.len() && perm[k] == t;
        assert(sorted[k] == group[t]);
        if k < sorted.len() - 1 {
            assert(remove[k] == group[t]);
        }
    }
}

/// The kept file of a group has the lowest rank in the group: a plain file
/// (or a member of an archive other than zip or cabinet) is kept over a zip
/// or cabinet member, and a cabinet member over a zip member.
pub proof fn law_kept_file_has_lowest_rank(sorted: Seq<FileInfoModel>, group: Seq<FileInfoModel>, perm: Seq<int>)
    requires
        stable_sort_of(sorted, group, perm),
        group.len() > 0,
    ensures
        forall|t: int| 0 <= t < group.len() ==> priority(sorted.last()) <= priority(#[trigger] group[t]),
{
    assert forall|t: int| 0 <= t < group.len() implies priority(sorted.last()) <= priority(#[trigger] group[t]) by {
        assert(hits(perm, t));
        let k = choose|k: int| 0 <= k < perm.len() && perm[k] == t;
        assert(sorted[k] == group[t]);
        if k < sorted.len() - 1 {
            assert(!goes_before(sorted[sorted.len() - 1], sorted[k]));
        }
    }
}

/// An archive together with the members to remove from it.
#[derive(Debug)]
pub struct ArchiveFiles {
    pub container: String,
    pub files: Vec<String>,
}

/// The model of an `ArchiveFiles`.
pub type ArchiveFilesModel = (Seq<char>, Seq<Seq<char>>);

pub open spec fn archive_lists(v: Seq<ArchiveFiles>) -> Seq<ArchiveFilesModel> {
    v.map_values(|a: ArchiveFiles| (a.container@, views(a.files@)))
}

/// No archive appears twice.
pub open spec fn containers_distinct(r: Seq<ArchiveFilesModel>) -> bool {
    forall|a: int, b: int| 0 <= a < b < r.len() ==> (#[trigger] r[a]).0 != (#[trigger] r[b]).0
}

/// `r` with `path` added to the members to remove from `container`: at the
/// end of that archive's list, or in a new list at the end.
pub open spec fn list_add(r: Seq<ArchiveFilesModel>, container: Seq<char>, path: Seq<char>) -> Seq<ArchiveFilesModel> {
    if exists|a: int| 0 <= a < r.len() && r[a].0 == container {
        let a = choose|a: int| 0 <= a < r.len() && r[a].0 == container;
        r.update(a, (container, r[a].1.push(path)))
    } else {
        r.push((container, seq![path]))
    }
}

/// Adds `path` to the members to remove from `container`.
pub fn add_archive_removal(rlist: &mut Vec<ArchiveFiles>, container: &str, path: &str)
    requires
        containers_distinct(archive_lists(old(rlist)@)),
    ensures
        archive_lists(final(rlist)@) == list_add(archive_lists(old(rlist)@), container@, path@),
        containers_distinct(archive_lists(final(rlist)@)),
{
    let ghost r0 = archive_lists(rlist@);
    let mut j: usize = 0;
    while j < rlist.len() && !str_eq(rlist[j].container.as_str(), container)
        invariant
            j <= rlist.len(),
            r0 == archive_lists(rlist@),
            forall|a: int| 0 <= a < j ==> (#[trigger] r0[a]).0 != container@,
        decreases rlist.len() - j,
    {
        proof {
            assert(r0[j as int].0 == rlist@[j as int].container@);
        }
        j = j + 1;
    }
    if j < rlist.len() {
        proof {
            assert(r0[j as int].0 == container@);
            let a = choose|a: int| 0 <= a < r0.len() && r0[a].0 == container@;
            assert(a == j);
        }
        let ghost old_vec = rlist@;
        let mut entry = rlist.remove(j);
        let ghost ef = entry.files@;
        entry.files.push(String::from_str(path));
        proof {
            assert(views(entry.files@) =~= views(ef).push(path@));
        }
        rlist.insert(j, entry);
        proof {
            assert(archive_lists(rlist@) =~= r0.update(j as int, (container@, r0[j as int].1.push(path@))));
        }
    } else {
        let mut files: Vec<String> = Vec::new();
        files.push(String::from_str(path));
        proof {
            assert(views(files@) =~= seq![path@]);
        }
        rlist.push(ArchiveFiles { container: String::from_str(container), files });
        proof {
            assert(archive_lists(rlist@) =~= r0.push((container@, seq![path@])));
        }
    }
}

/// Whether a scan entry names a member, of an archive not yet chosen, whose
/// lowercase extension is `ext`; the entry's archive if so.
pub open spec fn moves_archive(entry: Seq<char>, ext: Seq<char>, chosen: Seq<Seq<char>>) -> Option<Seq<char>> {
    match entry_container(entry) {
        Some(c) => if !chosen.contains(c) && match extension(entry_path(entry)) {
            Some(e) => spec_to_lowercase(e) == ext,
            None => false,
        } {
            Some(c)
        } else {
            None
        },
        None => None,
    }
}

/// The archives to move aside for the entries `paths` and the extension
/// `ext`: each archive that holds a member with that extension, once, in the
/// order of the first such member.
pub open spec fn moved_containers(paths: Seq<Seq<char>>, ext: Seq<char>) -> Seq<Seq<char>>
    decreases paths.len(),
{
    if paths.len() == 0 {
        Seq::empty()
    } else {
        let pre = moved_containers(paths.drop_last(), ext);
        match moves_archive(paths.last(), ext, pre) {
            Some(c) => pre.push(c),
            None => pre,
        }
    }
}

/// The archives to move aside when `move_ext` is the extension asked for.
pub fn containers_to_move(paths: &Vec<String>, move_ext: &str) -> (r: Vec<String>)
    ensures
        views(r@) == moved_containers(views(paths@), move_ext@),
{
    let ghost pv = views(paths@);
    let mut r: Vec<String> = Vec::new();
    let mut i: usize = 0;
    proof {
        assert(pv.take(0) =~= Seq::<Seq<char>>::empty());
        assert(views(r@) =~= Seq::<Seq<char>>::empty());
    }
    while i < paths.len()
        invariant
            i <= paths.len(),
            pv == views(paths@),
            views(r@) == moved_containers(pv.take(i as int), move_ext@),
        decreases paths.len() - i,
    {
        proof {
            assert(pv.take(i + 1).drop_last() =~= pv.take(i as int));
            assert(pv.take(i + 1).last() == paths@[i as int]@);
        }
        let fi = FileInfo::new(paths[i].as_str(), 0, 0);
        match &fi.container {
            Some(c) => {
                if !vec_contains(&r, c.as_str()) {
                    match fi.get_extension() {
                        Some(e) => {
                            if str_eq(e.as_str(), move_ext) {
                                let ghost before = r@;
                                r.push(c.clone());
                                proof {
                                    assert(views(r@) =~= views(before).push(c@));
                                }
                            }
                        },
                        None => {},
                    }
                }
            },
            None => {},
        }
        i = i + 1;
    }
    proof {
        assert(pv.take(paths.len() as int) =~= pv);
    }
    r
}

/// The entry names a member of the archive `c` whose lowercase extension is
/// `ext`.
pub open spec fn member_with_ext(entry: Seq<char>, c: Seq<char>, ext: Seq<char>) -> bool {
    &&& entry_container(entry) == Some(c)
    &&& match extension(entry_path(entry)) {
        Some(e) => spec_to_lowercase(e) == ext,
        None => false,
    }
}

/// An archive is moved aside exactly when some entry, at any position,
/// names a member of it with the extension asked for.
pub proof fn law_moved_containers_exact(paths: Seq<Seq<char>>, ext: Seq<char>)
    ensures
        forall|c: Seq<char>|
            #[trigger] moved_containers(paths, ext).contains(c) <==> exists|k: int|
                0 <= k < paths.len() && member_with_ext(#[trigger] paths[k], c, ext),
    decreases paths.len(),
{
    if paths.len() > 0 {
        let p = paths.drop_last();
        law_moved_containers_exact(p, ext);
        let pre = moved_containers(p, ext);
        let last = paths.last();
        assert forall|c: Seq<char>|
            #[trigger] moved_containers(paths, ext).contains(c) <==> exists|k: int|
                0 <= k < paths.len() && member_with_ext(#[trigger] paths[k], c, ext) by {
            let now = moved_containers(paths, ext);
            if now.contains(c) {
                if pre.contains(c) {
                    let k = choose|k: int| 0 <= k < p.len() && member_with_ext(#[trigger] p[k], c, ext);
                    assert(paths[k] == p[k]);
                } else {
                    let j = choose|j: int| 0 <= j < now.len() && now[j] == c;
                    assert(moves_archive(last, ext, pre) == Some(c)) by {
                        match moves_archive(last, ext, pre) {
                            Some(d) => {
                                if j < pre.len() {
                                    assert(now[j] == pre[j]);
                                }
                            },
                            None => {
                                assert(now[j] == pre[j]);
                            },
                        }
                    }
                    assert(member_with_ext(paths[paths.len() - 1], c, ext));
                }
            }
            if exists|k: int| 0 <= k < paths.len() && member_with_ext(#[trigger] paths[k], c, ext) {
                let k = choose|k: int| 0 <= k < paths.len() && member_with_ext(#[trigger] paths[k], c, ext);
                if k < p.len() {
                    assert(p[k] == paths[k]);
                    assert(pre.contains(c));
                    let j = choose|j: int| 0 <= j < pre.len() && pre[j] == c;
                    match moves_archive(last, ext, pre) {
                        Some(d) => {
                            assert(now[j] == pre[j]);
                        },
                        None => {},
                    }
                    assert(now.contains(c));
                } else {
                    assert(paths[k] == last);
                    if !pre.contains(c) {
                        assert(moves_archive(last, ext, pre) == Some(c));
                        assert(now[pre.len() as int] == c);
                    } else {
                        let j = choose|j: int| 0 <= j < pre.len() && pre[j] == c;
                        match moves_archive(last, ext, pre) {
                            Some(d) => {
                                assert(now[j] == pre[j]);
                            },
                            None => {},
                        }
                    }
                    assert(now.contains(c));
                }
            }
        }
    }
}

/// No archive is moved twice.
pub proof fn law_moved_containers_distinct(paths: Seq<Seq<char>>, ext: Seq<char>)
    ensures
        moved_containers(paths, ext).no_duplicates(),
    decreases paths.len(),
{
    if paths.len() > 0 {
        law_moved_containers_distinct(paths.drop_last(), ext);
        let pre = moved_containers(paths.drop_last(), ext);
        match moves_archive(paths.last(), ext, pre) {
            Some(c) => {
                assert(!pre.contains(c));
                let nw = pre.push(c);
                assert forall|a: int, b: int| 0 <= a < nw.len() && 0 <= b < nw.len() && a != b implies nw[a] != nw[b] by {
                    if b == pre.len() {
                        assert(nw[a] == pre[a]);
                    } else if a == pre.len() {
                        assert(nw[b] == pre[b]);
                    } else {
                        assert(nw[a] == pre[a] && nw[b] == pre[b]);
                    }
                }
            },
            None => {},
        }
    }
}

} // verus!
