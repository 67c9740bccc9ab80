//! Document discovery: given the files a directory walk found, keep those
//! whose root-relative form matches the configured glob patterns, and
//! return them sorted. Pattern compilation and matching rely on the
//! `globset` crate through trusted wrappers.

use vstd::prelude::*;
use vstd::string::StrSliceExecFns;
use crate::text::{chars_of, str_views};
use crate::paths::{is_under, rel_to_root, relative_for_glob};

verus! {

#[verifier::external_type_specification]
#[verifier::external_body]
pub struct ExGlob(globset::Glob);

#[verifier::external_type_specification]
#[verifier::external_body]
pub struct ExGlobSet(globset::GlobSet);

#[verifier::external_type_specification]
#[verifier::external_body]
pub struct ExGlobSetBuilder(globset::GlobSetBuilder);

#[verifier::external_type_specification]
#[verifier::external_body]
pub struct ExGlobError(globset::Error);

/// The pattern a compiled glob was built from.
pub uninterp spec fn glob_pattern(g: globset::Glob) -> Seq<char>;

/// The patterns a builder holds, in the order they were added.
pub uninterp spec fn builder_patterns(b: globset::GlobSetBuilder) -> Seq<Seq<char>>;

/// The patterns a compiled glob set was built from.
pub uninterp spec fn globset_patterns(s: globset::GlobSet) -> Seq<Seq<char>>;

/// Whether any of the patterns matches a slash-separated candidate path:
/// for such paths the result depends on the patterns and the path alone.
pub uninterp spec fn glob_match(patterns: Seq<Seq<char>>, path: Seq<char>) -> bool;

/// Whether the pattern compiler accepts this pattern: acceptance depends
/// on the pattern alone (backslash handling is fixed per compilation
/// target, like the separator handling of `glob_match`).
pub uninterp spec fn glob_ok(pattern: Seq<char>) -> bool;

/// Whether a combined matcher can be compiled from these (individually
/// accepted) patterns: a function of the pattern list alone, under the
/// same per-target convention as `glob_ok`.
pub uninterp spec fn globset_builds(patterns: Seq<Seq<char>>) -> bool;

/// Relies on `globset::Glob::new`: parses one pattern, succeeding exactly
/// on the patterns the compiler accepts; on success the compiled glob
/// stands for exactly that pattern.
#[verifier::external_body]
fn glob_new(pattern: &str) -> (r: Result<globset::Glob, globset::Error>)
    ensures
        match r {
            Ok(g) => glob_ok(pattern@) && glob_pattern(g) == pattern@,
            Err(_) => !glob_ok(pattern@),
        },
{
    globset::Glob::new(pattern)
}

/// Relies on `globset::GlobSetBuilder::new`: a fresh builder holds no
/// patterns.
#[verifier::external_body]
fn globset_builder_new() -> (r: globset::GlobSetBuilder)
    ensures
        builder_patterns(r) == Seq::<Seq<char>>::empty(),
{
    globset::GlobSetBuilder::new()
}

/// Relies on `globset::GlobSetBuilder::add`: appends one compiled glob to
/// the builder's pattern list.
#[verifier::external_body]
fn globset_builder_add(b: &mut globset::GlobSetBuilder, g: globset::Glob)
    ensures
        builder_patterns(*final(b)) == builder_patterns(*old(b)).push(glob_pattern(g)),
{
    b.add(g);
}

/// Relies on `globset::GlobSetBuilder::build`: compiles the set, succeeding
/// exactly when a matcher can be built from the added patterns; on success
/// the compiled set stands for exactly those patterns.
#[verifier::external_body]
fn globset_build(b: &globset::GlobSetBuilder) -> (r: Result<globset::GlobSet, globset::Error>)
    ensures
        match r {
            Ok(s) => globset_builds(builder_patterns(*b)) && globset_patterns(s)
                == builder_patterns(*b),
            Err(_) => !globset_builds(builder_patterns(*b)),
        },
{
    b.build()
}

/// Relies on `globset::GlobSet::is_match`: whether any pattern of the set
/// matches the path.
#[verifier::external_body]
fn globset_is_match(s: &globset::GlobSet, path: &str) -> (r: bool)
    ensures
        r == glob_match(globset_patterns(*s), path@),
{
    s.is_match(path)
}

/// Why a set of glob patterns yields no matcher.
#[derive(Debug)]
pub enum GlobError {
    /// The pattern compiler rejected this pattern.
    BadPattern(String),
    /// Every pattern parsed, but no combined matcher could be built.
    BuildFailed,
}

/// The default discovery pattern, used when the policy names none.
pub fn default_raw_patterns() -> (r: Vec<String>)
    ensures
        str_views(r@) == seq!["**/NOTES.md"@],
{
    let mut r: Vec<String> = Vec::new();
    r.push(String::from_str("**/NOTES.md"));
    assert(str_views(r@) =~= seq!["**/NOTES.md"@]);
    r
}

/// Compile the given patterns into one matcher. Succeeds exactly when
/// every pattern is accepted and the combined matcher builds; a rejected
/// pattern is reported back as the error.
pub fn build_globset(patterns: &Vec<String>) -> (r: Result<globset::GlobSet, GlobError>)
    ensures
        match r {
            Ok(s) => {
                &&& globset_patterns(s) == str_views(patterns@)
                &&& forall|i: int|
                    0 <= i < patterns@.len() ==> glob_ok(#[trigger] str_views(patterns@)[i])
                &&& globset_builds(str_views(patterns@))
            },
            Err(e) => match e {
                GlobError::BadPattern(p) => !glob_ok(p@) && str_views(patterns@).contains(p@),
                GlobError::BuildFailed => !globset_builds(str_views(patterns@)),
            },
        },
{
    let mut b = globset_builder_new();
    let mut i: usize = 0;
    assert(builder_patterns(b) =~= str_views(patterns@).take(0));
    while i < patterns.len()
        invariant
            i <= patterns@.len(),
            builder_patterns(b) == str_views(patterns@).take(i as int),
            forall|j: int| 0 <= j < i ==> glob_ok(#[trigger] str_views(patterns@)[j]),
        decreases patterns@.len() - i,
    {
        match glob_new(patterns[i].as_str()) {
            Ok(g) => {
                globset_builder_add(&mut b, g);
                assert(str_views(patterns@).take(i + 1) =~= str_views(patterns@).take(
                    i as int,
                ).push(str_views(patterns@)[i as int]));
            },
            Err(_) => {
                assert(str_views(patterns@)[i as int] == patterns@[i as int]@);
                return Err(GlobError::BadPattern(patterns[i].clone()));
            },
        }
        i = i + 1;
    }
    assert(str_views(patterns@).take(patterns@.len() as int) =~= str_views(patterns@));
    match globset_build(&b) {
        Ok(s) => Ok(s),
        Err(_) => Err(GlobError::BuildFailed),
    }
}

/// Lexicographic order on character sequences, by scalar value.
pub open spec fn lex_le(a: Seq<char>, b: Seq<char>) -> bool
    decreases a.len(),
{
    if a.len() == 0 {
        true
    } else if b.len() == 0 {
        false
    } else if a[0] != b[0] {
        (a[0] as u32) < (b[0] as u32)
    } else {
        lex_le(a.drop_first(), b.drop_first())
    }
}

/// The order is total.
pub proof fn lemma_lex_total(a: Seq<char>, b: Seq<char>)
    ensures
        lex_le(a, b) || lex_le(b, a),
    decreases a.len(),
{
    if a.len() > 0 && b.len() > 0 {
        if a[0] == b[0] {
            lemma_lex_total(a.drop_first(), b.drop_first());
        } else {
            vstd::utf8::char_u32_cast(a[0], a[0] as u32);
            vstd::utf8::char_u32_cast(b[0], b[0] as u32);
            assert(a[0] as u32 != b[0] as u32);
        }
    }
}

/// The order is transitive.
pub proof fn lemma_lex_trans(a: Seq<char>, b: Seq<char>, c: Seq<char>)
    requires
        lex_le(a, b),
        lex_le(b, c),
    ensures
        lex_le(a, c),
    decreases a.len(),
{
    if a.len() == 0 {
    } else {
        if a[0] == b[0] && b[0] == c[0] {
            lemma_lex_trans(a.drop_first(), b.drop_first(), c.drop_first());
        }
    }
}

/// Whether `a` orders at or before `b`.
pub fn str_lex_le(a: &str, b: &str) -> (r: bool)
    ensures
        r == lex_le(a@, b@),
{
    let av = chars_of(a);
    let bv = chars_of(b);
    let mut i: usize = 0;
    assert(a@.skip(0) =~= a@);
    assert(b@.skip(0) =~= b@);
    loop
        invariant
            av@ == a@,
            bv@ == b@,
            i <= av@.len(),
            i <= bv@.len(),
            lex_le(a@, b@) == lex_le(a@.skip(i as int), b@.skip(i as int)),
        ensures
            lex_le(a@, b@) == lex_le(a@.skip(i as int), b@.skip(i as int)),
            i <= av@.len() && i <= bv@.len(),
            i == av@.len() || i == bv@.len() || av@[i as int] != bv@[i as int],
        decreases av@.len() - i,
    {
        if i == av.len() || i == bv.len() {
            break ;
        }
        if av[i] != bv[i] {
            break ;
        }
        proof {
            assert(a@.skip(i as int)[0] == a@[i as int]);
            assert(b@.skip(i as int)[0] == b@[i as int]);
            assert(a@.skip(i as int).drop_first() =~= a@.skip(i + 1));
            assert(b@.skip(i as int).drop_first() =~= b@.skip(i + 1));
        }
        i = i + 1;
    }
    if i == av.len() {
        assert(a@.skip(i as int) =~= Seq::<char>::empty());
        true
    } else if i == bv.len() {
        assert(b@.skip(i as int) =~= Seq::<char>::empty());
        assert(a@.skip(i as int).len() > 0);
        false
    } else {
        proof {
            assert(a@.skip(i as int)[0] == a@[i as int]);
            assert(b@.skip(i as int)[0] == b@[i as int]);
        }
        (av[i] as u32) < (bv[i] as u32)
    }
}

/// The sequences are in lexicographic order.
pub open spec fn sorted_lex(s: Seq<Seq<char>>) -> bool {
    forall|i: int, j: int| 0 <= i < j < s.len() ==> lex_le(#[trigger] s[i], #[trigger] s[j])
}

/// Sort strings lexicographically by character value; the result holds the
/// same strings, in order.
pub fn sort_strings(v: Vec<String>) -> (r: Vec<String>)
    ensures
        sorted_lex(str_views(r@)),
        str_views(r@).to_multiset() == str_views(v@).to_multiset(),
{
    broadcast use vstd::seq_lib::group_seq_properties;

    let ghost orig_ms = str_views(v@).to_multiset();
    let mut rest = v;
    let mut out: Vec<String> = Vec::new();
    proof {
        str_views(rest@).to_multiset_ensures();
        str_views(out@).to_multiset_ensures();
        assert(str_views(out@) =~= Seq::<Seq<char>>::empty());
        assert(str_views(out@).to_multiset().add(str_views(rest@).to_multiset())
            =~= orig_ms);
    }
    while rest.len() > 0
        invariant
            str_views(out@).to_multiset().add(str_views(rest@).to_multiset()) == orig_ms,
            sorted_lex(str_views(out@)),
            forall|i: int, j: int|
                0 <= i < str_views(out@).len() && 0 <= j < str_views(rest@).len() ==> lex_le(
                    #[trigger] str_views(out@)[i],
                    #[trigger] str_views(rest@)[j],
                ),
        decreases rest@.len(),
    {
        // index of the least remaining string
        let mut m: usize = 0;
        let mut k: usize = 1;
        proof {
            lemma_lex_total(str_views(rest@)[0], str_views(rest@)[0]);
        }
        while k < rest.len()
            invariant
                m < k,
                k <= rest@.len(),
                m < rest@.len(),
                rest@.len() > 0,
                forall|j: int| 0 <= j < k ==> lex_le(str_views(rest@)[m as int], #[trigger]
                str_views(rest@)[j]),
            decreases rest@.len() - k,
        {
            if str_lex_le(rest[k].as_str(), rest[m].as_str()) {
                proof {
                    assert forall|j: int| 0 <= j < k + 1 implies lex_le(
                        str_views(rest@)[k as int],
                        #[trigger] str_views(rest@)[j],
                    ) by {
                        if j < k {
                            lemma_lex_trans(
                                str_views(rest@)[k as int],
                                str_views(rest@)[m as int],
                                str_views(rest@)[j],
                            );
                        } else {
                            lemma_lex_total(str_views(rest@)[k as int], str_views(rest@)[
                                k as int
                            ]);
                        }
                    }
                }
                m = k;
            } else {
                proof {
                    lemma_lex_total(str_views(rest@)[k as int], str_views(rest@)[m as int]);
                }
            }
            k = k + 1;
        }
        let ghost pre_rest = str_views(rest@);
        let ghost pre_out = str_views(out@);
        let x = rest.remove(m);
        proof {
            assert(str_views(rest@) =~= pre_rest.remove(m as int));
            pre_rest.to_multiset_ensures();
            str_views(out@).to_multiset_ensures();
        }
        out.push(x);
        proof {
            assert(str_views(out@) =~= pre_out.push(x@));
            pre_out.to_multiset_ensures();
            assert(str_views(out@).to_multiset() =~= pre_out.to_multiset().insert(x@));
            assert(str_views(out@).to_multiset().add(str_views(rest@).to_multiset())
                =~= pre_out.to_multiset().add(pre_rest.to_multiset()));
            assert forall|i: int, j: int|
                0 <= i < str_views(out@).len() && 0 <= j < str_views(rest@).len() implies lex_le(
                #[trigger] str_views(out@)[i],
                #[trigger] str_views(rest@)[j],
            ) by {
                let jj = if j < m as int {
                    j
                } else {
                    j + 1
                };
                assert(str_views(rest@)[j] == pre_rest[jj]);
                if i < pre_out.len() {
                } else {
                    assert(str_views(out@)[i] == x@);
                }
            }
            assert forall|i: int, j: int|
                0 <= i < j < str_views(out@).len() implies lex_le(
                #[trigger] str_views(out@)[i],
                #[trigger] str_views(out@)[j],
            ) by {
                if j < pre_out.len() {
                } else {
                    assert(str_views(out@)[j] == x@);
                    assert(pre_rest[m as int] == x@);
                }
            }
        }
    }
    proof {
        assert(str_views(rest@) =~= Seq::<Seq<char>>::empty());
        str_views(rest@).to_multiset_ensures();
        assert(str_views(rest@).to_multiset().len() == 0);
        assert(str_views(out@).to_multiset().add(str_views(rest@).to_multiset())
            =~= str_views(out@).to_multiset());
    }
    out
}

/// Which of the walked files the patterns select: a file under the root is
/// kept exactly when its root-relative, slash-separated form matches a
/// pattern; files outside the root are dropped; the result is sorted. With
/// no patterns given, the single default pattern applies. Succeeds exactly
/// when every effective pattern is accepted and the combined matcher
/// builds.
pub fn discover_raw_files(root: &str, walked: &Vec<String>, patterns: &Vec<String>) -> (r: Result<
    Vec<String>,
    GlobError,
>)
    ensures
        ({
            let pats = if patterns@.len() == 0 {
                seq!["**/NOTES.md"@]
            } else {
                str_views(patterns@)
            };
            match r {
                Ok(out) => {
                    &&& sorted_lex(str_views(out@))
                    &&& str_views(out@).to_multiset() == str_views(walked@).filter(
                        |p: Seq<char>| is_under(p, root@) && glob_match(
                            pats,
                            rel_to_root(p, root@),
                        ),
                    ).to_multiset()
                    &&& forall|i: int| 0 <= i < pats.len() ==> glob_ok(#[trigger] pats[i])
                    &&& globset_builds(pats)
                },
                Err(e) => match e {
                    GlobError::BadPattern(p) => !glob_ok(p@) && pats.contains(p@),
                    GlobError::BuildFailed => !globset_builds(pats),
                },
            }
        }),
{
    let ghost pats = if patterns@.len() == 0 {
        seq!["**/NOTES.md"@]
    } else {
        str_views(patterns@)
    };
    let set = if patterns.len() == 0 {
        let defaults = default_raw_patterns();
        match build_globset(&defaults) {
            Ok(s) => s,
            Err(e) => {
                return Err(e);
            },
        }
    } else {
        match build_globset(patterns) {
            Ok(s) => s,
            Err(e) => {
                return Err(e);
            },
        }
    };
    assert(globset_patterns(set) == pats);
    let ghost f = |p: Seq<char>| is_under(p, root@) && glob_match(pats, rel_to_root(p, root@));
    let mut kept: Vec<String> = Vec::new();
    let mut i: usize = 0;
    assert(str_views(walked@).take(0) =~= Seq::<Seq<char>>::empty());
    assert(str_views(kept@) =~= Seq::<Seq<char>>::empty().filter(f));
    while i < walked.len()
        invariant
            i <= walked@.len(),
            globset_patterns(set) == pats,
            f == (|p: Seq<char>| is_under(p, root@) && glob_match(pats, rel_to_root(p, root@))),
            str_views(kept@) == str_views(walked@).take(i as int).filter(f),
        decreases walked@.len() - i,
    {
        let ghost pre = str_views(kept@);
        let ghost sv = str_views(walked@);
        let keep = match relative_for_glob(walked[i].as_str(), root) {
            Some(rel) => globset_is_match(&set, rel.as_str()),
            None => false,
        };
        assert(keep == f(sv[i as int]));
        if keep {
            kept.push(walked[i].clone());
            proof {
                assert(str_views(kept@) =~= pre.push(sv[i as int]));
            }
        }
        proof {
            assert(sv.take(i + 1).drop_last() =~= sv.take(i as int));
            assert(sv.take(i + 1).last() == sv[i as int]);
            reveal_with_fuel(Seq::filter, 2);
            assert(sv.take(i + 1).filter(f) == if f(sv[i as int]) {
                sv.take(i as int).filter(f).push(sv[i as int])
            } else {
                sv.take(i as int).filter(f)
            });
            assert(str_views(kept@) == sv.take(i + 1).filter(f));
        }
        i = i + 1;
    }
    assert(str_views(walked@).take(walked@.len() as int) =~= str_views(walked@));
    Ok(sort_strings(kept))
}

} // verus!
