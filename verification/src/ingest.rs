//! Ingestion batch helpers: which discovered documents a delta batch
//! processes, and the scope label each atom carries.

use vstd::prelude::*;
use crate::text::{join_with, str_views};
use crate::tokens::contains_str;
use crate::paths::{
    clean_segments, is_under, normalize_relative, normalize_rel_segments, parent_dir, parent_of,
    path_relative_to_root, rel_to_root, split_on, under_root,
};

verus! {

/// The root-relative form under which an allow-list entry is compared:
/// absolute entries are made root-relative, relative ones are cleaned of
/// empty and `.` segments.
pub open spec fn normalize_only(o: Seq<char>, root: Seq<char>) -> Seq<char> {
    if o.len() > 0 && o[0] == '/' {
        rel_to_root(o, root)
    } else {
        join_with(clean_segments(split_on(o, '/')), seq!['/'])
    }
}

/// The allow-list entries, each normalized.
pub open spec fn normalized_only(only: Seq<Seq<char>>, root: Seq<char>) -> Seq<Seq<char>> {
    only.map_values(|o: Seq<char>| normalize_only(o, root))
}

/// Restrict the discovered documents to an allow list (a delta batch): a
/// document is kept when its root-relative form appears among the
/// normalized entries. An empty allow list means no restriction at all,
/// not an empty batch.
pub fn select_ingest_paths(paths: Vec<String>, root: &str, only: &Vec<String>) -> (r: Vec<String>)
    ensures
        only@.len() == 0 ==> str_views(r@) == str_views(paths@),
        only@.len() > 0 ==> str_views(r@) == str_views(paths@).filter(
            |p: Seq<char>| normalized_only(str_views(only@), root@).contains(
                rel_to_root(p, root@),
            ),
        ),
{
    if only.len() == 0 {
        return paths;
    }
    let ghost onorm = normalized_only(str_views(only@), root@);
    let mut keys: Vec<String> = Vec::new();
    let mut i: usize = 0;
    assert(str_views(keys@) =~= onorm.take(0));
    while i < only.len()
        invariant
            i <= only@.len(),
            onorm == normalized_only(str_views(only@), root@),
            str_views(keys@) == onorm.take(i as int),
        decreases only@.len() - i,
    {
        let ghost pre = str_views(keys@);
        let o = &only[i];
        let ov = crate::text::chars_of(o.as_str());
        let key = if ov.len() > 0 && ov[0] == '/' {
            normalize_relative(o.as_str(), root)
        } else {
            normalize_rel_segments(o.as_str())
        };
        assert(key@ == onorm[i as int]);
        keys.push(key);
        proof {
            assert(str_views(keys@) =~= pre.push(onorm[i as int]));
            assert(onorm.take(i + 1) =~= onorm.take(i as int).push(onorm[i as int]));
        }
        i = i + 1;
    }
    assert(onorm.take(only@.len() as int) =~= onorm);
    let ghost f = |p: Seq<char>| normalized_only(str_views(only@), root@).contains(
        rel_to_root(p, root@),
    );
    let ghost pv = str_views(paths@);
    let mut r: Vec<String> = Vec::new();
    let mut k: usize = 0;
    assert(pv.take(0) =~= Seq::<Seq<char>>::empty());
    assert(str_views(r@) =~= Seq::<Seq<char>>::empty().filter(f));
    while k < paths.len()
        invariant
            k <= paths@.len(),
            pv == str_views(paths@),
            onorm == normalized_only(str_views(only@), root@),
            str_views(keys@) == onorm,
            f == (|p: Seq<char>| normalized_only(str_views(only@), root@).contains(
                rel_to_root(p, root@),
            )),
            str_views(r@) == pv.take(k as int).filter(f),
        decreases paths@.len() - k,
    {
        let ghost pre = str_views(r@);
        let rel = path_relative_to_root(paths[k].as_str(), root);
        let keep = contains_str(&keys, rel.as_str());
        assert(keep == f(pv[k as int]));
        if keep {
            r.push(paths[k].clone());
            proof {
                assert(str_views(r@) =~= pre.push(pv[k as int]));
            }
        }
        proof {
            assert(pv.take(k + 1).drop_last() =~= pv.take(k as int));
            assert(pv.take(k + 1).last() == pv[k as int]);
            reveal_with_fuel(Seq::filter, 2);
            assert(pv.take(k + 1).filter(f) == if f(pv[k as int]) {
                pv.take(k as int).filter(f).push(pv[k as int])
            } else {
                pv.take(k as int).filter(f)
            });
        }
        k = k + 1;
    }
    assert(pv.take(paths@.len() as int) =~= pv);
    r
}

/// The scope label of a document: its directory relative to the root, or
/// `.` for documents at the root or outside it.
pub open spec fn scope_spec(p: Seq<char>, r: Seq<char>) -> Seq<char> {
    let par = parent_of(p);
    if par == r {
        seq!['.']
    } else if is_under(par, r) {
        par.skip(r.len() as int + 1)
    } else {
        seq!['.']
    }
}

/// The scope label stored with each atom of a document.
pub fn scope_of(path: &str, root: &str) -> (r: String)
    ensures
        r@ == scope_spec(path@, root@),
{
    let par = parent_dir(path);
    if crate::text::str_eq(par.as_str(), root) {
        let dot = String::from_str(".");
        proof {
            reveal_strlit(".");
            assert("."@ =~= seq!['.']);
        }
        dot
    } else if under_root(par.as_str(), root) {
        let rel = path_relative_to_root(par.as_str(), root);
        assert(rel@ == rel_to_root(par@, root@));
        rel
    } else {
        let dot = String::from_str(".");
        proof {
            reveal_strlit(".");
            assert("."@ =~= seq!['.']);
        }
        dot
    }
}

} // verus!
