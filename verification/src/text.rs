//! Character-level text utilities: character classes, trimming, line
//! splitting, joining, and substring search, with exact sequence contracts.

use vstd::prelude::*;
use vstd::string::StrSliceExecFns;
use vstd::string::StringExecFns;

verus! {

/// The character class used to delimit word tokens.
pub uninterp spec fn char_is_alnum(c: char) -> bool;

/// Relies on `char::is_alphanumeric`: the result depends on the character alone.
#[verifier::external_body]
pub(crate) fn is_alnum(c: char) -> (r: bool)
    ensures
        r == char_is_alnum(c),
{
    c.is_alphanumeric()
}

/// The character class treated as blank space when trimming.
pub uninterp spec fn char_is_space(c: char) -> bool;

/// Relies on `char::is_whitespace`: the result depends on the character alone.
#[verifier::external_body]
pub(crate) fn is_space(c: char) -> (r: bool)
    ensures
        r == char_is_space(c),
{
    c.is_whitespace()
}

/// The lowercase form of a character sequence.
pub uninterp spec fn lower_of(s: Seq<char>) -> Seq<char>;

/// Relies on `str::to_lowercase`: the result depends on the characters alone.
#[verifier::external_body]
pub(crate) fn to_lowercase_str(s: &str) -> (r: String)
    ensures
        r@ == lower_of(s@),
{
    s.to_lowercase()
}

/// Relies on `String::from_iter` over `char`: the returned string holds
/// exactly the given characters in order.
#[verifier::external_body]
pub(crate) fn string_from_chars(v: &Vec<char>) -> (r: String)
    ensures
        r@ == v@,
{
    v.iter().collect()
}

/// The characters of `s`, read out one by one.
pub fn chars_of(s: &str) -> (r: Vec<char>)
    ensures
        r@ == s@,
{
    let n = s.unicode_len();
    let mut r: Vec<char> = Vec::new();
    for i in 0..n
        invariant
            n == s@.len(),
            r@ == s@.take(i as int),
    {
        r.push(s.get_char(i));
        assert(r@ =~= s@.take(i + 1));
    }
    assert(s@.take(n as int) =~= s@);
    r
}

/// Copy of the characters of `v` between `a` (inclusive) and `b` (exclusive).
pub fn subrange_chars(v: &Vec<char>, a: usize, b: usize) -> (r: Vec<char>)
    requires
        a <= b <= v@.len(),
    ensures
        r@ == v@.subrange(a as int, b as int),
{
    let mut r: Vec<char> = Vec::new();
    let mut k = a;
    while k < b
        invariant
            a <= k <= b <= v@.len(),
            r@ == v@.subrange(a as int, k as int),
        decreases b - k,
    {
        r.push(v[k]);
        assert(r@ =~= v@.subrange(a as int, k + 1));
        k = k + 1;
    }
    r
}

/// `s` with leading space characters removed.
pub open spec fn trim_start_spec(s: Seq<char>) -> Seq<char>
    decreases s.len(),
{
    if s.len() == 0 {
        s
    } else if char_is_space(s[0]) {
        trim_start_spec(s.drop_first())
    } else {
        s
    }
}

/// `s` with trailing space characters removed.
pub open spec fn trim_end_spec(s: Seq<char>) -> Seq<char>
    decreases s.len(),
{
    if s.len() == 0 {
        s
    } else if char_is_space(s.last()) {
        trim_end_spec(s.drop_last())
    } else {
        s
    }
}

/// `s` with leading and trailing space characters removed.
pub open spec fn trim_spec(s: Seq<char>) -> Seq<char> {
    trim_end_spec(trim_start_spec(s))
}

/// Index of the first character of `v` at or after `from` that is not a space.
fn scan_spaces(v: &Vec<char>) -> (i: usize)
    ensures
        i <= v@.len(),
        trim_start_spec(v@) == v@.skip(i as int),
        i < v@.len() ==> !char_is_space(v@[i as int]),
{
    let mut i: usize = 0;
    assert(v@.skip(0) =~= v@);
    loop
        invariant
            i <= v@.len(),
            trim_start_spec(v@) == trim_start_spec(v@.skip(i as int)),
        ensures
            i <= v@.len(),
            trim_start_spec(v@) == v@.skip(i as int),
            i < v@.len() ==> !char_is_space(v@[i as int]),
        decreases v@.len() - i,
    {
        if i == v.len() {
            assert(v@.skip(i as int) =~= Seq::<char>::empty());
            break;
        }
        if !is_space(v[i]) {
            break;
        }
        assert(v@.skip(i as int).drop_first() =~= v@.skip(i + 1));
        i = i + 1;
    }
    i
}

/// Index just past the last non-space character of `v` within `v[from..]`,
/// given that everything before `from` is already known non-space context.
fn scan_spaces_end(v: &Vec<char>, from: usize) -> (j: usize)
    requires
        from <= v@.len(),
    ensures
        from <= j <= v@.len(),
        trim_end_spec(v@.skip(from as int)) == v@.subrange(from as int, j as int),
{
    let mut j: usize = v.len();
    assert(v@.subrange(from as int, j as int) =~= v@.skip(from as int));
    loop
        invariant
            from <= j <= v@.len(),
            trim_end_spec(v@.skip(from as int)) == trim_end_spec(
                v@.subrange(from as int, j as int),
            ),
        ensures
            from <= j <= v@.len(),
            trim_end_spec(v@.skip(from as int)) == v@.subrange(from as int, j as int),
        decreases j,
    {
        if j == from {
            assert(v@.subrange(from as int, j as int) =~= Seq::<char>::empty());
            break;
        }
        if !is_space(v[j - 1]) {
            break;
        }
        assert(v@.subrange(from as int, j as int).drop_last() =~= v@.subrange(
            from as int,
            j - 1,
        ));
        j = j - 1;
    }
    j
}

/// `v` trimmed of leading space characters.
pub fn trim_start_chars(v: &Vec<char>) -> (r: Vec<char>)
    ensures
        r@ == trim_start_spec(v@),
{
    let i = scan_spaces(v);
    let r = subrange_chars(v, i, v.len());
    assert(v@.subrange(i as int, v@.len() as int) =~= v@.skip(i as int));
    r
}

/// `v` trimmed of leading and trailing space characters.
pub fn trim_chars(v: &Vec<char>) -> (r: Vec<char>)
    ensures
        r@ == trim_spec(v@),
{
    let i = scan_spaces(v);
    let j = scan_spaces_end(v, i);
    subrange_chars(v, i, j)
}

/// The character sequences of a list of character vectors.
pub open spec fn seq_views(s: Seq<Vec<char>>) -> Seq<Seq<char>> {
    s.map_values(|v: Vec<char>| v@)
}

/// The character sequences of a list of strings.
pub open spec fn str_views(s: Seq<String>) -> Seq<Seq<char>> {
    s.map_values(|v: String| v@)
}

/// Index of the first newline in `s`, or `s.len()` if there is none.
pub open spec fn first_newline(s: Seq<char>) -> int
    decreases s.len(),
{
    if s.len() == 0 {
        0
    } else if s[0] == '\n' {
        0
    } else {
        1 + first_newline(s.drop_first())
    }
}

pub proof fn lemma_first_newline(s: Seq<char>)
    ensures
        0 <= first_newline(s) <= s.len(),
        first_newline(s) < s.len() ==> s[first_newline(s)] == '\n',
        forall|k: int| 0 <= k < first_newline(s) ==> s[k] != '\n',
    decreases s.len(),
{
    if s.len() == 0 {
    } else if s[0] == '\n' {
    } else {
        lemma_first_newline(s.drop_first());
        assert forall|k: int| 0 <= k < first_newline(s) implies s[k] != '\n' by {
            if k > 0 {
                assert(s[k] == s.drop_first()[k - 1]);
            }
        }
    }
}

/// A line with its terminating carriage return removed, if it has one.
pub open spec fn strip_cr(l: Seq<char>) -> Seq<char> {
    if l.len() > 0 && l.last() == '\r' {
        l.drop_last()
    } else {
        l
    }
}

/// The lines of `s`: segments between newlines, each with a terminating
/// carriage return removed; a final newline does not open an empty last line.
pub open spec fn split_lines_spec(s: Seq<char>) -> Seq<Seq<char>>
    decreases s.len(),
    via split_lines_spec_decreases
{
    if s.len() == 0 {
        Seq::empty()
    } else {
        let k = first_newline(s);
        if k == s.len() {
            seq![s]
        } else {
            seq![strip_cr(s.take(k))] + split_lines_spec(s.skip(k + 1))
        }
    }
}

#[via_fn]
proof fn split_lines_spec_decreases(s: Seq<char>) {
    lemma_first_newline(s);
}

/// Index of the first newline in `v` at or after `p`.
fn scan_to_newline(v: &Vec<char>, p: usize) -> (k: usize)
    requires
        p <= v@.len(),
    ensures
        p <= k <= v@.len(),
        k - p == first_newline(v@.skip(p as int)),
        k < v@.len() ==> v@[k as int] == '\n',
{
    let mut k = p;
    loop
        invariant
            p <= k <= v@.len(),
            first_newline(v@.skip(p as int)) == k - p + first_newline(v@.skip(k as int)),
        ensures
            p <= k <= v@.len(),
            k - p == first_newline(v@.skip(p as int)),
            k < v@.len() ==> v@[k as int] == '\n',
        decreases v@.len() - k,
    {
        if k == v.len() {
            assert(v@.skip(k as int) =~= Seq::<char>::empty());
            break;
        }
        if v[k] == '\n' {
            assert(v@.skip(k as int)[0] == '\n');
            break;
        }
        assert(v@.skip(k as int)[0] != '\n');
        assert(v@.skip(k as int).drop_first() =~= v@.skip(k + 1));
        k = k + 1;
    }
    k
}

/// The lines of `v`, as `split_lines_spec` describes them.
pub fn split_lines(v: &Vec<char>) -> (r: Vec<Vec<char>>)
    ensures
        seq_views(r@) == split_lines_spec(v@),
{
    let mut r: Vec<Vec<char>> = Vec::new();
    let mut p: usize = 0;
    assert(v@.skip(0) =~= v@);
    assert(seq_views(r@) =~= Seq::<Seq<char>>::empty());
    while p < v.len()
        invariant
            p <= v@.len(),
            split_lines_spec(v@) == seq_views(r@) + split_lines_spec(v@.skip(p as int)),
        decreases v@.len() - p,
    {
        let ghost rest = v@.skip(p as int);
        let k = scan_to_newline(v, p);
        let mut line = subrange_chars(v, p, k);
        assert(rest.take(k - p) =~= v@.subrange(p as int, k as int));
        if k == v.len() {
            assert(rest =~= v@.subrange(p as int, k as int));
            r.push(line);
            assert(seq_views(r@) =~= split_lines_spec(v@));
            p = k;
        } else {
            if line.len() > 0 && line[line.len() - 1] == '\r' {
                line.pop();
            }
            assert(line@ == strip_cr(rest.take(k - p)));
            r.push(line);
            assert(rest.skip(k - p + 1) =~= v@.skip(k + 1));
            assert(seq_views(r@) =~= seq_views(r@.drop_last()) + seq![r@.last()@]);
            assert(split_lines_spec(v@) == seq_views(r@) + split_lines_spec(v@.skip(k + 1)));
            p = k + 1;
        }
    }
    assert(split_lines_spec(v@.skip(p as int)) =~= Seq::<Seq<char>>::empty());
    assert(seq_views(r@) =~= seq_views(r@) + split_lines_spec(v@.skip(p as int)));
    r
}

/// The parts joined with `sep` between consecutive parts.
pub open spec fn join_with(parts: Seq<Seq<char>>, sep: Seq<char>) -> Seq<char>
    decreases parts.len(),
{
    if parts.len() == 0 {
        Seq::empty()
    } else if parts.len() == 1 {
        parts[0]
    } else {
        parts[0] + sep + join_with(parts.drop_first(), sep)
    }
}

pub proof fn lemma_join_push(parts: Seq<Seq<char>>, x: Seq<char>, sep: Seq<char>)
    ensures
        join_with(parts.push(x), sep) == if parts.len() == 0 {
            x
        } else {
            join_with(parts, sep) + sep + x
        },
    decreases parts.len(),
{
    if parts.len() == 0 {
        assert(parts.push(x)[0] == x);
    } else if parts.len() == 1 {
        assert(parts.push(x).drop_first() =~= seq![x]);
        assert(join_with(seq![x], sep) == x);
        assert(parts.push(x)[0] == parts[0]);
        assert(join_with(parts.push(x), sep) == parts[0] + sep + x);
    } else {
        assert(parts.push(x).drop_first() =~= parts.drop_first().push(x));
        lemma_join_push(parts.drop_first(), x, sep);
        assert((parts[0] + sep + (join_with(parts.drop_first(), sep) + sep + x)) =~= (parts[0]
            + sep + join_with(parts.drop_first(), sep)) + sep + x);
    }
}

/// The parts joined with the single character `sep`.
pub fn join_char(parts: &Vec<Vec<char>>, sep: char) -> (r: Vec<char>)
    ensures
        r@ == join_with(seq_views(parts@), seq![sep]),
{
    let mut r: Vec<char> = Vec::new();
    let mut i: usize = 0;
    while i < parts.len()
        invariant
            i <= parts@.len(),
            r@ == join_with(seq_views(parts@).take(i as int), seq![sep]),
        decreases parts@.len() - i,
    {
        let ghost views = seq_views(parts@);
        if i > 0 {
            r.push(sep);
        }
        let mut j: usize = 0;
        let part = &parts[i];
        while j < part.len()
            invariant
                j <= part@.len(),
                part@ == seq_views(parts@)[i as int],
                i < parts@.len(),
                r@ == if i == 0 {
                    part@.take(j as int)
                } else {
                    join_with(seq_views(parts@).take(i as int), seq![sep]) + seq![sep]
                        + part@.take(j as int)
                },
            decreases part@.len() - j,
        {
            r.push(part[j]);
            assert(part@.take(j + 1) =~= part@.take(j as int).push(part@[j as int]));
            j = j + 1;
        }
        proof {
            assert(part@.take(part@.len() as int) =~= part@);
            lemma_join_push(views.take(i as int), views[i as int], seq![sep]);
            assert(views.take(i + 1) =~= views.take(i as int).push(views[i as int]));
        }
        i = i + 1;
    }
    assert(seq_views(parts@).take(parts@.len() as int) =~= seq_views(parts@));
    r
}

/// The strings joined with `sep` between consecutive parts.
pub fn join_strings(parts: &Vec<String>, sep: &str) -> (r: String)
    ensures
        r@ == join_with(str_views(parts@), sep@),
{
    let mut r = String::new();
    let mut i: usize = 0;
    while i < parts.len()
        invariant
            i <= parts@.len(),
            r@ == join_with(str_views(parts@).take(i as int), sep@),
        decreases parts@.len() - i,
    {
        let ghost views = str_views(parts@);
        if i > 0 {
            r.append(sep);
        }
        r.append(parts[i].as_str());
        proof {
            lemma_join_push(views.take(i as int), views[i as int], sep@);
            assert(views.take(i + 1) =~= views.take(i as int).push(views[i as int]));
            if i == 0 {
                assert(Seq::<char>::empty() + views[0] =~= views[0]);
            }
        }
        i = i + 1;
    }
    assert(str_views(parts@).take(parts@.len() as int) =~= str_views(parts@));
    r
}

/// `q` occurs in `s` starting at index `i`.
pub open spec fn is_sub_at(s: Seq<char>, q: Seq<char>, i: int) -> bool {
    0 <= i && i + q.len() <= s.len() && s.subrange(i, i + q.len()) == q
}

/// `q` occurs somewhere in `s`.
pub open spec fn contains_sub(s: Seq<char>, q: Seq<char>) -> bool {
    exists|i: int| is_sub_at(s, q, i)
}

/// Whether `q` occurs as a contiguous run of characters in `s`.
pub fn contains_chars(s: &Vec<char>, q: &Vec<char>) -> (r: bool)
    ensures
        r == contains_sub(s@, q@),
{
    if q.len() > s.len() {
        assert(forall|i: int| !is_sub_at(s@, q@, i));
        return false;
    }
    if q.len() == 0 {
        assert(s@.subrange(0, 0) =~= q@);
        assert(is_sub_at(s@, q@, 0));
        return true;
    }
    let last = s.len() - q.len();
    let mut i: usize = 0;
    loop
        invariant
            0 <= i <= last + 1,
            last == s@.len() - q@.len(),
            1 <= q@.len() <= s@.len(),
            s@.len() <= usize::MAX,
            forall|ii: int| 0 <= ii < i ==> !is_sub_at(s@, q@, ii),
        ensures
            i <= last,
            is_sub_at(s@, q@, i as int),
        decreases last + 1 - i,
    {
        if i > last {
            assert(forall|ii: int| !is_sub_at(s@, q@, ii));
            return false;
        }
        let mut j: usize = 0;
        let mut hit = true;
        loop
            invariant_except_break
                hit,
            invariant
                0 <= j <= q@.len(),
                i <= last,
                last == s@.len() - q@.len(),
                i + q@.len() <= s@.len(),
                s@.len() <= usize::MAX,
                forall|k: int| 0 <= k < j ==> s@[i + k] == q@[k],
            ensures
                hit ==> j == q@.len() && forall|k: int| 0 <= k < j ==> s@[i + k] == q@[k],
                !hit ==> !is_sub_at(s@, q@, i as int),
            decreases q@.len() - j,
        {
            if j == q.len() {
                break;
            }
            if s[i + j] != q[j] {
                proof {
                    if is_sub_at(s@, q@, i as int) {
                        assert(s@.subrange(i as int, i + q@.len())[j as int] == q@[j as int]);
                    }
                }
                hit = false;
                break;
            }
            j = j + 1;
        }
        if hit {
            assert(s@.subrange(i as int, i + q@.len()) =~= q@);
            break;
        }
        i = i + 1;
    }
    true
}

/// Whether two string slices hold the same characters.
pub fn str_eq(a: &str, b: &str) -> (r: bool)
    ensures
        r == (a@ == b@),
{
    let na = a.unicode_len();
    let nb = b.unicode_len();
    if na != nb {
        return false;
    }
    let mut i: usize = 0;
    while i < na
        invariant
            na == a@.len() == b@.len(),
            i <= na,
            forall|k: int| 0 <= k < i ==> a@[k] == b@[k],
        decreases na - i,
    {
        if a.get_char(i) != b.get_char(i) {
            return false;
        }
        i = i + 1;
    }
    assert(a@ =~= b@);
    true
}

} // verus!
