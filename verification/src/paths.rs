//! Path handling over slash-separated strings: the well-known file
//! locations under a root, root-relative normalization, and format
//! detection by extension.

use vstd::prelude::*;
use vstd::string::StringExecFns;
use crate::text::{chars_of, join_with, seq_views, str_eq, string_from_chars, subrange_chars};
use crate::tokens::chars_eq;

verus! {

/// Location of the agent log under a root.
pub fn agent_log_path(root: &str) -> (r: String)
    ensures
        r@ == root@ + "/.hyena/agent/agent_log.ndjson"@,
{
    let s = String::from_str(root);
    s.concat("/.hyena/agent/agent_log.ndjson")
}

/// Location of the scratch log under a root.
pub fn scratch_path(root: &str) -> (r: String)
    ensures
        r@ == root@ + "/.hyena/agent/scratch.ndjson"@,
{
    let s = String::from_str(root);
    s.concat("/.hyena/agent/scratch.ndjson")
}

/// Location of the atom log under a root.
pub fn derived_log_path(root: &str) -> (r: String)
    ensures
        r@ == root@ + "/.notes/notes.ndjson"@,
{
    let s = String::from_str(root);
    s.concat("/.notes/notes.ndjson")
}

/// Location of the cluster store under a root.
pub fn clusters_dir_path(root: &str) -> (r: String)
    ensures
        r@ == root@ + "/.work/clusters"@,
{
    let s = String::from_str(root);
    s.concat("/.work/clusters")
}

/// `c` lies at or under directory `r`: it is `r` itself, or continues it
/// across a path separator.
pub open spec fn is_under(c: Seq<char>, r: Seq<char>) -> bool {
    c == r || (c.len() > r.len() && c.subrange(0, r.len() as int) == r && c[r.len() as int] == '/')
}

/// Whether `v` begins with `w`.
fn starts_with_chars(v: &Vec<char>, w: &Vec<char>) -> (r: bool)
    ensures
        r == (v@.len() >= w@.len() && v@.subrange(0, w@.len() as int) == w@),
{
    if v.len() < w.len() {
        return false;
    }
    let p = subrange_chars(v, 0, w.len());
    chars_eq(&p, w)
}

/// Whether `current` is at or under the directory `root`.
pub fn under_root(current: &str, root: &str) -> (r: bool)
    ensures
        r == is_under(current@, root@),
{
    if str_eq(current, root) {
        return true;
    }
    let cv = chars_of(current);
    let rv = chars_of(root);
    if cv.len() > rv.len() && starts_with_chars(&cv, &rv) {
        cv[rv.len()] == '/'
    } else {
        false
    }
}

/// The path a walk starts from: the root itself, the given path if it is
/// absolute, or the given path joined under the root.
pub open spec fn start_path_spec(root: Seq<char>, from: Option<Seq<char>>) -> Seq<char> {
    match from {
        None => root,
        Some(p) => if p.len() > 0 && p[0] == '/' {
            p
        } else {
            root + seq!['/'] + p
        },
    }
}

/// Resolve the starting path for a walk up to the root.
pub fn start_path(root: &str, from: Option<&str>) -> (r: String)
    ensures
        r@ == start_path_spec(
            root@,
            match from {
                Some(p) => Some(p@),
                None => None,
            },
        ),
{
    match from {
        None => String::from_str(root),
        Some(p) => {
            let pv = chars_of(p);
            if pv.len() > 0 && pv[0] == '/' {
                String::from_str(p)
            } else {
                let r = String::from_str(root).concat("/");
                proof {
                    reveal_strlit("/");
                    assert("/"@ =~= seq!['/']);
                }
                let r2 = r.concat(p);
                assert(r2@ =~= root@ + seq!['/'] + p@);
                r2
            }
        },
    }
}

/// `path` made relative to `root`: the part after the separator when it
/// lies under the root, the empty string when it is the root, and the path
/// itself otherwise.
pub open spec fn rel_to_root(p: Seq<char>, r: Seq<char>) -> Seq<char> {
    if p == r {
        Seq::empty()
    } else if is_under(p, r) {
        p.skip(r.len() as int + 1)
    } else {
        p
    }
}

/// The slash-normalized form of `path` relative to `root`.
pub fn path_relative_to_root(path: &str, root: &str) -> (r: String)
    ensures
        r@ == rel_to_root(path@, root@),
{
    if str_eq(path, root) {
        proof {
            reveal_strlit("");
            assert(""@ =~= Seq::<char>::empty());
        }
        return String::from_str("");
    }
    if under_root(path, root) {
        let pv = chars_of(path);
        let rv = chars_of(root);
        assert(path@.len() > root@.len());
        let rl = rv.len();
        let pl = pv.len();
        assert(rl < pl);
        let tail = subrange_chars(&pv, rl + 1, pl);
        assert(tail@ =~= path@.skip(root@.len() as int + 1));
        string_from_chars(&tail)
    } else {
        String::from_str(path)
    }
}

/// Normalize a path to forward-slash relative form for comparison; the
/// same relation as `path_relative_to_root`.
pub fn normalize_relative(path: &str, root: &str) -> (r: String)
    ensures
        r@ == rel_to_root(path@, root@),
{
    path_relative_to_root(path, root)
}

/// `path` relative to `root` for glob matching: nothing when the path does
/// not lie under the root.
pub fn relative_for_glob(path: &str, root: &str) -> (r: Option<String>)
    ensures
        match r {
            Some(s) => is_under(path@, root@) && s@ == rel_to_root(path@, root@),
            None => !is_under(path@, root@),
        },
{
    if under_root(path, root) {
        Some(path_relative_to_root(path, root))
    } else {
        None
    }
}

/// The segments of `s` between separators.
pub open spec fn split_on(s: Seq<char>, sep: char) -> Seq<Seq<char>>
    decreases s.len(),
    via split_on_decreases
{
    if s.len() == 0 {
        Seq::empty()
    } else {
        let k = first_at(s, sep);
        if k == s.len() {
            seq![s]
        } else {
            seq![s.take(k)] + split_on(s.skip(k + 1), sep)
        }
    }
}

/// Index of the first occurrence of `sep` in `s`, or `s.len()`.
pub open spec fn first_at(s: Seq<char>, sep: char) -> int
    decreases s.len(),
{
    if s.len() == 0 {
        0
    } else if s[0] == sep {
        0
    } else {
        1 + first_at(s.drop_first(), sep)
    }
}

pub proof fn lemma_first_at(s: Seq<char>, sep: char)
    ensures
        0 <= first_at(s, sep) <= s.len(),
    decreases s.len(),
{
    if s.len() > 0 && s[0] != sep {
        lemma_first_at(s.drop_first(), sep);
    }
}

#[via_fn]
proof fn split_on_decreases(s: Seq<char>, sep: char) {
    lemma_first_at(s, sep);
}

/// Split `v` at every occurrence of `sep`.
pub fn split_char(v: &Vec<char>, sep: char) -> (r: Vec<Vec<char>>)
    ensures
        seq_views(r@) == split_on(v@, sep),
{
    let mut r: Vec<Vec<char>> = Vec::new();
    let mut p: usize = 0;
    assert(v@.skip(0) =~= v@);
    assert(seq_views(r@) =~= Seq::<Seq<char>>::empty());
    while p < v.len()
        invariant
            p <= v@.len(),
            split_on(v@, sep) == seq_views(r@) + split_on(v@.skip(p as int), sep),
        decreases v@.len() - p,
    {
        let ghost rest = v@.skip(p as int);
        let mut k = p;
        loop
            invariant
                p <= k <= v@.len(),
                first_at(v@.skip(p as int), sep) == k - p + first_at(v@.skip(k as int), sep),
            ensures
                p <= k <= v@.len(),
                k - p == first_at(v@.skip(p as int), sep),
            decreases v@.len() - k,
        {
            if k == v.len() {
                assert(v@.skip(k as int) =~= Seq::<char>::empty());
                break ;
            }
            assert(v@.skip(k as int)[0] == v@[k as int]);
            if v[k] == sep {
                break ;
            }
            assert(v@.skip(k as int).drop_first() =~= v@.skip(k + 1));
            k = k + 1;
        }
        let ghost pre = seq_views(r@);
        let seg = subrange_chars(v, p, k);
        assert(seg@ =~= rest.take(k - p));
        r.push(seg);
        proof {
            assert(seq_views(r@) =~= pre.push(rest.take(k - p)));
        }
        if k == v.len() {
            assert(rest.take(k - p) =~= rest);
            assert(seq_views(r@) =~= pre + seq![rest]);
            p = k;
        } else {
            assert(rest.skip(k - p + 1) =~= v@.skip(k + 1));
            assert(seq_views(r@) =~= pre + seq![rest.take(k - p)]);
            p = k + 1;
        }
    }
    assert(split_on(v@.skip(p as int), sep) =~= Seq::<Seq<char>>::empty());
    assert(seq_views(r@) + split_on(v@.skip(p as int), sep) =~= seq_views(r@));
    r
}

/// Segments that survive normalization: non-empty and not `.`.
pub open spec fn clean_segments(segs: Seq<Seq<char>>) -> Seq<Seq<char>> {
    segs.filter(|seg: Seq<char>| seg.len() > 0 && seg != seq!['.'])
}

/// Normalize a relative path for comparison: empty and `.` segments are
/// dropped, `..` segments are kept, and the rest are rejoined with `/`.
pub fn normalize_rel_segments(path: &str) -> (r: String)
    ensures
        r@ == join_with(clean_segments(split_on(path@, '/')), seq!['/']),
{
    broadcast use vstd::seq_lib::group_seq_properties;

    let v = chars_of(path);
    let segs = split_char(&v, '/');
    let mut kept: Vec<Vec<char>> = Vec::new();
    let mut i: usize = 0;
    let ghost f = |seg: Seq<char>| seg.len() > 0 && seg != seq!['.'];
    assert(seq_views(segs@).take(0) =~= Seq::<Seq<char>>::empty());
    assert(seq_views(kept@) =~= Seq::<Seq<char>>::empty().filter(f));
    while i < segs.len()
        invariant
            i <= segs@.len(),
            f == (|seg: Seq<char>| seg.len() > 0 && seg != seq!['.']),
            seq_views(kept@) == seq_views(segs@).take(i as int).filter(f),
        decreases segs@.len() - i,
    {
        let ghost pre = seq_views(kept@);
        let ghost sv = seq_views(segs@);
        let seg = &segs[i];
        assert(seg@ == sv[i as int]);
        let keep = if seg.len() == 0 {
            false
        } else if seg.len() == 1 && seg[0] == '.' {
            proof {
                assert(seg@ =~= seq!['.']);
            }
            false
        } else {
            proof {
                if seg@ == seq!['.'] {
                    assert(seg@.len() == 1 && seg@[0] == '.');
                }
            }
            true
        };
        assert(keep == f(sv[i as int]));
        if keep {
            let copy = subrange_chars(seg, 0, seg.len());
            assert(copy@ =~= segs@[i as int]@);
            kept.push(copy);
            proof {
                assert(seq_views(kept@) =~= pre.push(segs@[i as int]@));
            }
        }
        proof {
            assert(sv.take(i + 1).drop_last() =~= sv.take(i as int));
            assert(sv.take(i + 1).last() == sv[i as int]);
            assert(sv.take(i + 1).len() == i + 1);
            reveal_with_fuel(Seq::filter, 2);
            assert(sv.take(i + 1).filter(f) == if f(sv[i as int]) {
                sv.take(i as int).filter(f).push(sv[i as int])
            } else {
                sv.take(i as int).filter(f)
            });
            assert(seq_views(kept@) == sv.take(i + 1).filter(f));
        }
        i = i + 1;
    }
    assert(seq_views(segs@).take(segs@.len() as int) =~= seq_views(segs@));
    let joined = crate::text::join_char(&kept, '/');
    string_from_chars(&joined)
}


/// Index of the last occurrence of `sep` in `s`, or `-1`.
pub open spec fn last_at(s: Seq<char>, sep: char) -> int
    decreases s.len(),
{
    if s.len() == 0 {
        -1
    } else if s.last() == sep {
        s.len() - 1
    } else {
        last_at(s.drop_last(), sep)
    }
}

pub proof fn lemma_last_at(s: Seq<char>, sep: char)
    ensures
        -1 <= last_at(s, sep) < s.len(),
        last_at(s, sep) >= 0 ==> s[last_at(s, sep)] == sep,
        forall|k: int| last_at(s, sep) < k < s.len() ==> s[k] != sep,
    decreases s.len(),
{
    if s.len() > 0 && s.last() != sep {
        lemma_last_at(s.drop_last(), sep);
        assert forall|k: int| last_at(s, sep) < k < s.len() implies s[k] != sep by {
            if k < s.len() - 1 {
                assert(s.drop_last()[k] == s[k]);
            }
        }
        if last_at(s, sep) >= 0 {
            assert(s.drop_last()[last_at(s, sep)] == s[last_at(s, sep)]);
        }
    }
}

/// Index of the last occurrence of `c` in `v`, if any.
fn last_index_of(v: &Vec<char>, c: char) -> (r: Option<usize>)
    ensures
        match r {
            Some(j) => j < v@.len() && j as int == last_at(v@, c),
            None => last_at(v@, c) == -1,
        },
{
    let mut j = v.len();
    assert(v@.take(j as int) =~= v@);
    loop
        invariant
            j <= v@.len(),
            last_at(v@, c) == last_at(v@.take(j as int), c),
        ensures
            j <= v@.len(),
            j > 0 ==> j - 1 == last_at(v@, c) && v@[j - 1] == c,
            j == 0 ==> last_at(v@, c) == -1,
        decreases j,
    {
        if j == 0 {
            break ;
        }
        assert(v@.take(j as int).last() == v@[j - 1]);
        if v[j - 1] == c {
            proof {
                lemma_last_at(v@.take(j as int), c);
            }
            break ;
        }
        assert(v@.take(j as int).drop_last() =~= v@.take(j - 1));
        j = j - 1;
    }
    if j > 0 {
        Some(j - 1)
    } else {
        None
    }
}

/// Case-insensitive equality of two characters, folding only the ASCII
/// uppercase letters.
pub open spec fn ci_eq(x: char, y: char) -> bool {
    x == y || ('A' <= x <= 'Z' && y as u32 == x as u32 + 32) || ('A' <= y <= 'Z' && x as u32
        == y as u32 + 32)
}

/// ASCII-case-insensitive equality of two character sequences.
pub open spec fn ascii_ci_eq(a: Seq<char>, b: Seq<char>) -> bool {
    a.len() == b.len() && forall|k: int| 0 <= k < a.len() ==> ci_eq(a[k], #[trigger] b[k])
}

/// Whether `a` and `b` hold the same characters up to ASCII case.
fn eq_ascii_ci(a: &Vec<char>, b: &Vec<char>) -> (r: bool)
    ensures
        r == ascii_ci_eq(a@, b@),
{
    if a.len() != b.len() {
        return false;
    }
    let mut i: usize = 0;
    while i < a.len()
        invariant
            i <= a@.len(),
            a@.len() == b@.len(),
            forall|k: int| 0 <= k < i ==> ci_eq(a@[k], #[trigger] b@[k]),
        decreases a@.len() - i,
    {
        let x = a[i];
        let y = b[i];
        let xu = x as u32;
        let yu = y as u32;
        let hit = x == y || ('A' <= x && x <= 'Z' && yu == xu + 32) || ('A' <= y && y <= 'Z' && xu
            == yu + 32);
        if !hit {
            assert(!ci_eq(a@[i as int], b@[i as int]));
            return false;
        }
        i = i + 1;
    }
    true
}

/// The file name of a slash-separated path: everything after the last `/`.
pub open spec fn file_name_of(p: Seq<char>) -> Seq<char> {
    p.skip(last_at(p, '/') + 1)
}

/// The extension of a path: what follows the last `.` of its file name,
/// none when the file name has no `.` past its first character.
pub open spec fn ext_of(p: Seq<char>) -> Option<Seq<char>> {
    let name = file_name_of(p);
    let d = last_at(name, '.');
    if d <= 0 {
        None
    } else {
        Some(name.skip(d + 1))
    }
}

/// A document is treated as structured markup when its extension is `md`
/// or `markdown`, compared without regard to ASCII case.
pub open spec fn is_md_path(p: Seq<char>) -> bool {
    match ext_of(p) {
        Some(e) => ascii_ci_eq(e, "md"@) || ascii_ci_eq(e, "markdown"@),
        None => false,
    }
}

/// Whether this path names a structured markup document.
pub fn is_markdown_path(path: &str) -> (r: bool)
    ensures
        r == is_md_path(path@),
{
    let v = chars_of(path);
    proof {
        lemma_last_at(v@, '/');
    }
    let name_start: usize = match last_index_of(&v, '/') {
        Some(j) => j + 1,
        None => 0,
    };
    let name = subrange_chars(&v, name_start, v.len());
    assert(name@ =~= file_name_of(path@));
    proof {
        lemma_last_at(name@, '.');
    }
    match last_index_of(&name, '.') {
        None => false,
        Some(d) => {
            if d == 0 {
                false
            } else {
                let ext = subrange_chars(&name, d + 1, name.len());
                assert(ext@ =~= file_name_of(path@).skip(last_at(file_name_of(path@), '.') + 1));
                let md: Vec<char> = vec!['m', 'd'];
                let markdown: Vec<char> = vec!['m', 'a', 'r', 'k', 'd', 'o', 'w', 'n'];
                proof {
                    reveal_strlit("md");
                    reveal_strlit("markdown");
                    assert(md@ =~= "md"@);
                    assert(markdown@ =~= "markdown"@);
                }
                let r = eq_ascii_ci(&ext, &md) || eq_ascii_ci(&ext, &markdown);
                r
            }
        },
    }
}

/// The directory holding `p`: everything before the last `/`, or the empty
/// string when there is no separator.
pub open spec fn parent_of(p: Seq<char>) -> Seq<char> {
    if last_at(p, '/') <= 0 {
        Seq::empty()
    } else {
        p.take(last_at(p, '/'))
    }
}

/// The directory of `path`, as `parent_of` describes it.
pub fn parent_dir(path: &str) -> (r: String)
    ensures
        r@ == parent_of(path@),
{
    let v = chars_of(path);
    proof {
        lemma_last_at(v@, '/');
    }
    match last_index_of(&v, '/') {
        None => {
            let r = String::new();
            assert(r@ =~= parent_of(path@));
            r
        },
        Some(j) => {
            if j == 0 {
                let r = String::new();
                assert(r@ =~= parent_of(path@));
                r
            } else {
                let p = subrange_chars(&v, 0, j);
                assert(p@ =~= parent_of(path@));
                string_from_chars(&p)
            }
        },
    }
}

/// The directories to probe for a NOTES.md, nearest first: the start
/// directory, then each parent in turn, never leaving the root.
pub open spec fn walk_up_spec(current: Seq<char>, root: Seq<char>) -> Seq<Seq<char>>
    decreases current.len(),
{
    if !is_under(current, root) {
        Seq::empty()
    } else {
        let par = parent_of(current);
        if par.len() < current.len() && is_under(par, root) {
            seq![current] + walk_up_spec(par, root)
        } else {
            seq![current]
        }
    }
}

/// The directories between `start_dir` and `root` in which a NOTES.md
/// would be looked for, nearest first.
pub fn notes_candidates(root: &str, start_dir: &str) -> (r: Vec<String>)
    ensures
        crate::text::str_views(r@) == walk_up_spec(start_dir@, root@),
{
    let mut r: Vec<String> = Vec::new();
    let mut current = String::from_str(start_dir);
    let ghost target = walk_up_spec(start_dir@, root@);
    assert(crate::text::str_views(r@) =~= Seq::<Seq<char>>::empty());
    loop
        invariant_except_break
            target == crate::text::str_views(r@) + walk_up_spec(current@, root@),
        invariant
            target == walk_up_spec(start_dir@, root@),
        ensures
            crate::text::str_views(r@) == target,
        decreases current@.len() + 1,
    {
        if !under_root(current.as_str(), root) {
            assert(walk_up_spec(current@, root@) =~= Seq::<Seq<char>>::empty());
            assert(crate::text::str_views(r@) + walk_up_spec(current@, root@)
                =~= crate::text::str_views(r@));
            break ;
        }
        let ghost pre = crate::text::str_views(r@);
        let ghost cur = current@;
        let par = parent_dir(current.as_str());
        let shorter = par.as_str().unicode_len() < current.as_str().unicode_len();
        let cont = shorter && under_root(par.as_str(), root);
        r.push(current);
        proof {
            assert(crate::text::str_views(r@) =~= pre.push(cur));
            assert(pre.push(cur) =~= pre + seq![cur]);
        }
        if !cont {
            assert(walk_up_spec(cur, root@) =~= seq![cur]);
            assert(crate::text::str_views(r@) =~= target);
            break ;
        }
        assert(walk_up_spec(cur, root@) =~= seq![cur] + walk_up_spec(par@, root@));
        assert(target =~= crate::text::str_views(r@) + walk_up_spec(par@, root@));
        current = par;
    }
    r
}

} // verus!
