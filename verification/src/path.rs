//! File names, stems, extensions and component suffixes of Unix paths, with the rules of
//! `std::path::Path`: components are separated by `/`, empty and `.`
//! components are skipped, and a path that ends in `..` has no file name.

use vstd::prelude::*;
use crate::text::{split_char, split_on, str_eq, views};

verus! {

/// A component that `Path::components` reports as a normal component
/// or as `..` (neither empty nor `.`).
pub open spec fn is_significant(seg: Seq<char>) -> bool {
    seg.len() > 0 && seg != seq!['.']
}

/// Index of the last significant component, or -1.
pub open spec fn last_significant(segs: Seq<Seq<char>>) -> int
    decreases segs.len(),
{
    if segs.len() == 0 {
        -1
    } else if is_significant(segs.last()) {
        segs.len() - 1
    } else {
        last_significant(segs.drop_last())
    }
}

/// `Path::file_name`.
pub open spec fn file_name(p: Seq<char>) -> Option<Seq<char>> {
    let segs = split_on(p, '/');
    let k = last_significant(segs);
    if k < 0 || segs[k] == seq!['.', '.'] {
        None
    } else {
        Some(segs[k])
    }
}

/// Index of the last `.` in `s`, or -1.
pub open spec fn last_dot(s: Seq<char>) -> int
    decreases s.len(),
{
    if s.len() == 0 {
        -1
    } else if s.last() == '.' {
        s.len() - 1
    } else {
        last_dot(s.drop_last())
    }
}

/// `Path::extension`: what follows the last `.` of the file name, unless the
/// name has no `.` or its only `.` is its first character.
pub open spec fn extension(p: Seq<char>) -> Option<Seq<char>> {
    match file_name(p) {
        None => None,
        Some(n) => if last_dot(n) <= 0 {
            None
        } else {
            Some(n.skip(last_dot(n) + 1))
        },
    }
}

/// `Path::file_stem`: the file name without its extension.
pub open spec fn file_stem(p: Seq<char>) -> Option<Seq<char>> {
    match file_name(p) {
        None => None,
        Some(n) => if last_dot(n) <= 0 {
            Some(n)
        } else {
            Some(n.take(last_dot(n)))
        },
    }
}

proof fn lemma_last_dot_range(s: Seq<char>)
    ensures
        -1 <= last_dot(s) < s.len(),
        last_dot(s) >= 0 ==> s[last_dot(s)] == '.',
    decreases s.len(),
{
    if s.len() > 0 && s.last() != '.' {
        lemma_last_dot_range(s.drop_last());
    }
}

fn is_dot_dot(s: &str) -> (r: bool)
    ensures
        r == (s@ == seq!['.', '.']),
{
    if s.unicode_len() != 2 {
        return false;
    }
    let r = s.get_char(0) == '.' && s.get_char(1) == '.';
    proof {
        if r {
            assert(s@ =~= seq!['.', '.']);
        }
    }
    r
}

fn is_significant_str(s: &str) -> (r: bool)
    ensures
        r == is_significant(s@),
{
    let n = s.unicode_len();
    if n == 0 {
        return false;
    }
    if n == 1 && s.get_char(0) == '.' {
        proof {
            assert(s@ =~= seq!['.']);
        }
        return false;
    }
    proof {
        if s@ == seq!['.'] {
            assert(s@[0] == '.');
        }
    }
    true
}

/// Index of the last `.` in `s`, if any.
fn find_last_dot(s: &str) -> (r: Option<usize>)
    ensures
        match r {
            Some(i) => last_dot(s@) == i,
            None => last_dot(s@) == -1,
        },
{
    let n = s.unicode_len();
    let mut i: usize = n;
    proof {
        assert(s@.take(n as int) =~= s@);
    }
    while i > 0
        invariant
            n == s@.len(),
            i <= n,
            last_dot(s@) == last_dot(s@.take(i as int)),
        decreases i,
    {
        proof {
            assert(s@.take(i as int).drop_last() =~= s@.take(i - 1));
        }
        if s.get_char(i - 1) == '.' {
            return Some(i - 1);
        }
        i = i - 1;
    }
    None
}

/// `Path::file_name` of `p`.
pub fn file_name_of(p: &str) -> (r: Option<String>)
    ensures
        match r {
            Some(n) => file_name(p@) == Some(n@),
            None => file_name(p@).is_none(),
        },
{
    let segs = split_char(p, '/');
    let ghost sv = split_on(p@, '/');
    proof {
        assert(sv.len() == segs.len());
    }
    let mut k: usize = segs.len();
    proof {
        assert(sv.take(k as int) =~= sv);
    }
    while k > 0
        invariant
            k <= segs.len(),
            sv == views(segs@),
            sv == split_on(p@, '/'),
            last_significant(sv) == last_significant(sv.take(k as int)),
        decreases k,
    {
        proof {
            assert(sv.take(k as int).drop_last() =~= sv.take(k - 1));
            assert(sv.take(k as int).last() == segs@[k - 1]@);
        }
        if is_significant_str(segs[k - 1].as_str()) {
            if is_dot_dot(segs[k - 1].as_str()) {
                return None;
            }
            return Some(segs[k - 1].clone());
        }
        k = k - 1;
    }
    proof {
        assert(sv.take(0) =~= Seq::<Seq<char>>::empty());
    }
    None
}

/// `Path::extension` of `p`.
pub fn extension_of(p: &str) -> (r: Option<String>)
    ensures
        match r {
            Some(e) => extension(p@) == Some(e@),
            None => extension(p@).is_none(),
        },
{
    match file_name_of(p) {
        None => None,
        Some(n) => {
            match find_last_dot(n.as_str()) {
                None => None,
                Some(i) => {
                    if i == 0 {
                        None
                    } else {
                        proof {
                            lemma_last_dot_range(n@);
                        }
                        let len = n.as_str().unicode_len();
                        let e = n.as_str().substring_char(i + 1, len);
                        proof {
                            assert(e@ =~= n@.skip(i + 1));
                        }
                        Some(String::from_str(e))
                    }
                }
            }
        }
    }
}

/// `Path::file_stem` of `p`.
pub fn file_stem_of(p: &str) -> (r: Option<String>)
    ensures
        match r {
            Some(e) => file_stem(p@) == Some(e@),
            None => file_stem(p@).is_none(),
        },
{
    match file_name_of(p) {
        None => None,
        Some(n) => {
            match find_last_dot(n.as_str()) {
                None => Some(n),
                Some(i) => {
                    if i == 0 {
                        Some(n)
                    } else {
                        proof {
                            lemma_last_dot_range(n@);
                        }
                        let e = n.as_str().substring_char(0, i);
                        proof {
                            assert(e@ =~= n@.take(i as int));
                        }
                        Some(String::from_str(e))
                    }
                }
            }
        }
    }
}

/// The significant components of `segs`, in order.
pub open spec fn significant_parts(segs: Seq<Seq<char>>) -> Seq<Seq<char>>
    decreases segs.len(),
{
    if segs.len() == 0 {
        Seq::empty()
    } else {
        let pre = significant_parts(segs.drop_last());
        if is_significant(segs.last()) {
            pre.push(segs.last())
        } else {
            pre
        }
    }
}

/// `Path::components` of a Unix path: the root, written `/`, when the path
/// starts with `/`; the current directory, written `.`, when a relative path
/// starts with a `.` component; then the components that are neither empty
/// nor `.`.
pub open spec fn path_components(p: Seq<char>) -> Seq<Seq<char>> {
    let segs = split_on(p, '/');
    let head = if p.len() > 0 && p[0] == '/' {
        seq![seq!['/']]
    } else if segs.len() > 0 && segs[0] == seq!['.'] {
        seq![seq!['.']]
    } else {
        Seq::empty()
    };
    head + significant_parts(segs)
}

/// `Path::ends_with`: the components of `child` are the last components of
/// `p`.
pub open spec fn path_ends_with(p: Seq<char>, child: Seq<char>) -> bool {
    let a = path_components(p);
    let b = path_components(child);
    b.len() <= a.len() && a.skip(a.len() - b.len()) == b
}

fn is_dot(s: &str) -> (r: bool)
    ensures
        r == (s@ == seq!['.']),
{
    if s.unicode_len() != 1 {
        return false;
    }
    let r = s.get_char(0) == '.';
    proof {
        if r {
            assert(s@ =~= seq!['.']);
        }
    }
    r
}

/// The components of `p`, as `path_components` gives them.
fn components_of(p: &str) -> (r: Vec<String>)
    ensures
        views(r@) == path_components(p@),
{
    let segs = split_char(p, '/');
    let ghost sv = split_on(p@, '/');
    let mut r: Vec<String> = Vec::new();
    let slash = "/";
    let dot = ".";
    proof {
        reveal_strlit("/");
        reveal_strlit(".");
        assert(slash@ =~= seq!['/']);
        assert(dot@ =~= seq!['.']);
    }
    if p.unicode_len() > 0 && p.get_char(0) == '/' {
        r.push(String::from_str(slash));
    } else if segs.len() > 0 && is_dot(segs[0].as_str()) {
        r.push(String::from_str(dot));
    }
    let ghost head = views(r@);
    proof {
        assert(sv.len() == segs.len());
        if segs.len() > 0 {
            assert(sv[0] == segs@[0]@);
        }
        assert(head == (if p@.len() > 0 && p@[0] == '/' {
            seq![seq!['/']]
        } else if sv.len() > 0 && sv[0] == seq!['.'] {
            seq![seq!['.']]
        } else {
            Seq::<Seq<char>>::empty()
        }));
        assert(sv.take(0) =~= Seq::<Seq<char>>::empty());
        assert(views(r@) =~= head + significant_parts(sv.take(0)));
    }
    let mut i: usize = 0;
    while i < segs.len()
        invariant
            i <= segs.len(),
            sv == views(segs@),
            views(r@) == head + significant_parts(sv.take(i as int)),
        decreases segs.len() - i,
    {
        proof {
            assert(sv.take(i + 1).drop_last() =~= sv.take(i as int));
            assert(sv.take(i + 1).last() == segs@[i as int]@);
        }
        let ghost before = views(r@);
        if is_significant_str(segs[i].as_str()) {
            r.push(segs[i].clone());
            proof {
                assert(views(r@) =~= before.push(segs@[i as int]@));
            }
        }
        i = i + 1;
    }
    proof {
        assert(sv.take(segs.len() as int) =~= sv);
    }
    r
}

/// Whether the last components of `p` are those of `child`, as
/// `Path::ends_with` decides it.
pub fn path_ends_with_of(p: &str, child: &str) -> (r: bool)
    ensures
        r == path_ends_with(p@, child@),
{
    let a = components_of(p);
    let b = components_of(child);
    let ghost av = views(a@);
    let ghost bv = views(b@);
    if b.len() > a.len() {
        return false;
    }
    let off = a.len() - b.len();
    let mut i: usize = 0;
    while i < b.len()
        invariant
            i <= b.len(),
            off + b.len() == a.len(),
            av == views(a@),
            bv == views(b@),
            av == path_components(p@),
            bv == path_components(child@),
            forall|j: int| 0 <= j < i ==> av[off + j] == bv[j],
        decreases b.len() - i,
    {
        if !str_eq(a[off + i].as_str(), b[i].as_str()) {
            proof {
                assert(av[off + i] == a@[off + i]@);
                assert(bv[i as int] == b@[i as int]@);
                assert(av.skip(off as int)[i as int] != bv[i as int]);
                assert(av.skip(off as int) != bv);
                assert(av.len() == a@.len() && bv.len() == b@.len());
            }
            return false;
        }
        i = i + 1;
    }
    proof {
        assert(av.skip(off as int) =~= bv);
    }
    true
}

} // verus!
