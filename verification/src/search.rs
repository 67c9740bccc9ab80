//! Substring search over the atom log and, optionally, the scratch log:
//! a line matches when its trimmed form is non-blank and contains the
//! query.

use vstd::prelude::*;
use crate::text::{
    chars_of, contains_chars, contains_sub, seq_views, split_lines, split_lines_spec,
    string_from_chars, subrange_chars, trim_chars, trim_spec,
};

verus! {

/// The lines of `content` whose trimmed form is non-blank and contains
/// `q`; matching lines are returned verbatim.
pub open spec fn matching_lines(content: Seq<char>, q: Seq<char>) -> Seq<Seq<char>> {
    split_lines_spec(content).filter(
        |l: Seq<char>| trim_spec(l).len() > 0 && contains_sub(trim_spec(l), q),
    )
}

/// The lines of one file that match the query.
fn scan_content(content: &str, query: &str) -> (r: Vec<String>)
    ensures
        crate::text::str_views(r@) == matching_lines(content@, query@),
{
    let ghost f = |l: Seq<char>| trim_spec(l).len() > 0 && contains_sub(trim_spec(l), query@);
    let v = chars_of(content);
    let qv = chars_of(query);
    let lines = split_lines(&v);
    let ghost sv = seq_views(lines@);
    let mut out: Vec<String> = Vec::new();
    let mut i: usize = 0;
    assert(sv.take(0) =~= Seq::<Seq<char>>::empty());
    assert(crate::text::str_views(out@) =~= Seq::<Seq<char>>::empty().filter(f));
    while i < lines.len()
        invariant
            i <= lines@.len(),
            sv == seq_views(lines@),
            qv@ == query@,
            f == (|l: Seq<char>|
                trim_spec(l).len() > 0 && contains_sub(trim_spec(l), query@)),
            crate::text::str_views(out@) == sv.take(i as int).filter(f),
        decreases lines@.len() - i,
    {
        let ghost pre = crate::text::str_views(out@);
        assert(lines@[i as int]@ == sv[i as int]);
        let t = trim_chars(&lines[i]);
        if t.len() > 0 && contains_chars(&t, &qv) {
            let copy = subrange_chars(&lines[i], 0, lines[i].len());
            assert(copy@ =~= sv[i as int]);
            out.push(string_from_chars(&copy));
            proof {
                assert(crate::text::str_views(out@) =~= pre.push(sv[i as int]));
            }
        }
        proof {
            assert(sv.take(i + 1).drop_last() =~= sv.take(i as int));
            assert(sv.take(i + 1).last() == sv[i as int]);
            reveal_with_fuel(Seq::filter, 2);
            assert(sv.take(i + 1).filter(f) == if f(sv[i as int]) {
                sv.take(i as int).filter(f).push(sv[i as int])
            } else {
                sv.take(i as int).filter(f)
            });
        }
        i = i + 1;
    }
    assert(sv.take(lines@.len() as int) =~= sv);
    out
}

/// Search the atom log — and the scratch log when its content is supplied
/// — for lines containing `query`, atom-log matches first.
pub fn search(derived_content: &str, scratch_content: Option<&str>, query: &str) -> (r: Vec<
    String,
>)
    ensures
        crate::text::str_views(r@) == matching_lines(derived_content@, query@) + (
        match scratch_content {
            Some(s) => matching_lines(s@, query@),
            None => Seq::<Seq<char>>::empty(),
        }),
{
    let mut out = scan_content(derived_content, query);
    match scratch_content {
        Some(s) => {
            let ghost pre = crate::text::str_views(out@);
            let mut more = scan_content(s, query);
            let ghost morev = crate::text::str_views(more@);
            out.append(&mut more);
            proof {
                assert(crate::text::str_views(out@) =~= pre + morev);
            }
        },
        None => {
            assert(crate::text::str_views(out@) =~= crate::text::str_views(out@) + Seq::<
                Seq<char>,
            >::empty());
        },
    }
    out
}

} // verus!
