//! Tokenizer: free text to a set of lowercase word tokens, and Jaccard
//! similarity counts over such token sets.

use vstd::prelude::*;
use crate::text::{
    char_is_alnum, chars_of, is_alnum, lower_of, seq_views, str_views, string_from_chars,
    subrange_chars, to_lowercase_str,
};

verus! {

/// Length of the leading run of word characters in `s`.
pub open spec fn word_end(s: Seq<char>) -> int
    decreases s.len(),
{
    if s.len() == 0 {
        0
    } else if !char_is_alnum(s[0]) {
        0
    } else {
        1 + word_end(s.drop_first())
    }
}

pub proof fn lemma_word_end(s: Seq<char>)
    ensures
        0 <= word_end(s) <= s.len(),
        forall|k: int| 0 <= k < word_end(s) ==> char_is_alnum(s[k]),
        word_end(s) < s.len() ==> !char_is_alnum(s[word_end(s)]),
    decreases s.len(),
{
    if s.len() == 0 {
    } else if !char_is_alnum(s[0]) {
    } else {
        lemma_word_end(s.drop_first());
        assert forall|k: int| 0 <= k < word_end(s) implies char_is_alnum(s[k]) by {
            if k > 0 {
                assert(s[k] == s.drop_first()[k - 1]);
            }
        }
    }
}

/// The maximal runs of word characters in `s`, in order, duplicates kept.
pub open spec fn split_words(s: Seq<char>) -> Seq<Seq<char>>
    decreases s.len(),
    via split_words_decreases
{
    if s.len() == 0 {
        Seq::empty()
    } else if !char_is_alnum(s[0]) {
        split_words(s.drop_first())
    } else {
        seq![s.take(word_end(s))] + split_words(s.skip(word_end(s)))
    }
}

#[via_fn]
proof fn split_words_decreases(s: Seq<char>) {
    lemma_word_end(s);
}

/// `words` with every repetition of an earlier word removed.
pub open spec fn dedup_first(words: Seq<Seq<char>>) -> Seq<Seq<char>>
    decreases words.len(),
{
    if words.len() == 0 {
        Seq::empty()
    } else if words.drop_last().contains(words.last()) {
        dedup_first(words.drop_last())
    } else {
        dedup_first(words.drop_last()).push(words.last())
    }
}

pub proof fn lemma_dedup_first(words: Seq<Seq<char>>)
    ensures
        dedup_first(words).no_duplicates(),
        dedup_first(words).to_set() == words.to_set(),
        forall|x: Seq<char>| #[trigger] dedup_first(words).contains(x) <==> words.contains(x),
    decreases words.len(),
{
    broadcast use vstd::seq_lib::group_seq_properties;

    if words.len() == 0 {
        assert(dedup_first(words).to_set() =~= words.to_set());
    } else {
        let rest = words.drop_last();
        lemma_dedup_first(rest);
        assert forall|x: Seq<char>| words.contains(x) implies (rest.contains(x) || x
            == words.last()) by {
            let k = choose|k: int| 0 <= k < words.len() && words[k] == x;
            if k < words.len() - 1 {
                assert(rest[k] == x);
            }
        }
        assert(forall|x: Seq<char>| rest.contains(x) ==> words.contains(x));
        assert(words.contains(words.last()));
        if rest.contains(words.last()) {
            assert(dedup_first(words).to_set() =~= words.to_set());
        } else {
            let d = dedup_first(rest);
            assert(!d.contains(words.last()));
            assert forall|x: Seq<char>| #[trigger] d.push(words.last()).contains(x) implies (
            d.contains(x) || x == words.last()) by {
                let k = choose|k: int|
                    0 <= k < d.push(words.last()).len() && d.push(words.last())[k] == x;
                if k < d.len() {
                    assert(d[k] == x);
                }
            }
            assert forall|i: int, j: int|
                0 <= i < j < d.push(words.last()).len() implies d.push(words.last())[i] != d.push(
                words.last(),
            )[j] by {
                if j < d.len() {
                } else {
                    assert(d.push(words.last())[i] == d[i]);
                    assert(d.contains(d[i]));
                }
            }
            assert(dedup_first(words).no_duplicates());
            assert(dedup_first(words).to_set() =~= words.to_set());
        }
    }
}

/// The word tokens of `s`, lowercased, in first-occurrence order.
pub open spec fn token_seq(s: Seq<char>) -> Seq<Seq<char>> {
    dedup_first(split_words(lower_of(s)))
}

/// The set of word tokens of `s`, lowercased.
pub open spec fn token_set(s: Seq<char>) -> Set<Seq<char>> {
    split_words(lower_of(s)).to_set()
}

/// Markdown decoration characters are turned into spaces: each `**`, `[`,
/// `]`, `(`, `)` and `:` becomes one space; all other characters remain.
pub open spec fn md_punct(c: char) -> bool {
    c == '[' || c == ']' || c == '(' || c == ')' || c == ':'
}

/// `s` with markdown decoration replaced by spaces.
pub open spec fn md_strip(s: Seq<char>) -> Seq<char>
    decreases s.len(),
{
    if s.len() == 0 {
        s
    } else if s.len() >= 2 && s[0] == '*' && s[1] == '*' {
        seq![' '] + md_strip(s.skip(2))
    } else if md_punct(s[0]) {
        seq![' '] + md_strip(s.drop_first())
    } else {
        seq![s[0]] + md_strip(s.drop_first())
    }
}

/// Whether the character vectors `a` and `b` hold the same characters.
pub(crate) fn chars_eq(a: &Vec<char>, b: &Vec<char>) -> (r: bool)
    ensures
        r == (a@ == b@),
{
    if a.len() != b.len() {
        return false;
    }
    let mut i: usize = 0;
    while i < a.len()
        invariant
            i <= a@.len(),
            a@.len() == b@.len(),
            forall|k: int| 0 <= k < i ==> a@[k] == b@[k],
        decreases a@.len() - i,
    {
        if a[i] != b[i] {
            return false;
        }
        i = i + 1;
    }
    assert(a@ =~= b@);
    true
}

/// Whether `w` occurs among the words of `ws`.
fn contains_word(ws: &Vec<Vec<char>>, w: &Vec<char>) -> (r: bool)
    ensures
        r == seq_views(ws@).contains(w@),
{
    let mut i: usize = 0;
    while i < ws.len()
        invariant
            i <= ws@.len(),
            forall|k: int| 0 <= k < i ==> seq_views(ws@)[k] != w@,
        decreases ws@.len() - i,
    {
        if chars_eq(&ws[i], w) {
            assert(seq_views(ws@)[i as int] == w@);
            return true;
        }
        i = i + 1;
    }
    false
}

/// The maximal word-character runs of `v`, in order.
pub(crate) fn split_words_exec(v: &Vec<char>) -> (r: Vec<Vec<char>>)
    ensures
        seq_views(r@) == split_words(v@),
{
    let mut r: Vec<Vec<char>> = Vec::new();
    let mut p: usize = 0;
    assert(v@.skip(0) =~= v@);
    assert(seq_views(r@) =~= Seq::<Seq<char>>::empty());
    while p < v.len()
        invariant
            p <= v@.len(),
            split_words(v@) == seq_views(r@) + split_words(v@.skip(p as int)),
        decreases v@.len() - p,
    {
        let ghost rest = v@.skip(p as int);
        if !is_alnum(v[p]) {
            assert(rest.drop_first() =~= v@.skip(p + 1));
            p = p + 1;
        } else {
            let mut k = p + 1;
            assert(rest[0] == v@[p as int]);
            proof {
                assert(rest.drop_first() =~= v@.skip(p + 1));
            }
            loop
                invariant
                    p < k <= v@.len(),
                    rest == v@.skip(p as int),
                    word_end(rest) == k - p + word_end(v@.skip(k as int)),
                ensures
                    p < k <= v@.len(),
                    word_end(rest) == k - p,
                decreases v@.len() - k,
            {
                if k == v.len() {
                    assert(v@.skip(k as int) =~= Seq::<char>::empty());
                    break;
                }
                if !is_alnum(v[k]) {
                    assert(v@.skip(k as int)[0] == v@[k as int]);
                    break;
                }
                assert(v@.skip(k as int)[0] == v@[k as int]);
                assert(v@.skip(k as int).drop_first() =~= v@.skip(k + 1));
                k = k + 1;
            }
            let word = subrange_chars(v, p, k);
            proof {
                assert(rest.take(k - p) =~= v@.subrange(p as int, k as int));
                assert(rest.skip(k - p) =~= v@.skip(k as int));
            }
            r.push(word);
            assert(seq_views(r@) =~= seq_views(r@.drop_last()).push(r@.last()@));
            assert(seq_views(r@.drop_last()).push(word@) =~= seq_views(r@.drop_last()) + seq![
                word@,
            ]);
            p = k;
        }
    }
    assert(split_words(v@.skip(p as int)) =~= Seq::<Seq<char>>::empty());
    assert(seq_views(r@) + split_words(v@.skip(p as int)) =~= seq_views(r@));
    r
}

/// `words` deduplicated, keeping the first occurrence of each word.
fn dedup_words(words: Vec<Vec<char>>) -> (r: Vec<Vec<char>>)
    ensures
        seq_views(r@) == dedup_first(seq_views(words@)),
        seq_views(r@).no_duplicates(),
{
    let ghost all = seq_views(words@);
    let mut r: Vec<Vec<char>> = Vec::new();
    let mut i: usize = 0;
    assert(seq_views(words@).take(0) =~= Seq::<Seq<char>>::empty());
    assert(seq_views(r@) =~= Seq::<Seq<char>>::empty());
    while i < words.len()
        invariant
            i <= words@.len(),
            all == seq_views(words@),
            seq_views(r@) == dedup_first(all.take(i as int)),
        decreases words@.len() - i,
    {
        let ghost prefix = all.take(i as int);
        proof {
            lemma_dedup_first(prefix);
            assert(all.take(i + 1).drop_last() =~= prefix);
            assert(all.take(i + 1).last() == all[i as int]);
        }
        if !contains_word(&r, &words[i]) {
            let w = subrange_chars(&words[i], 0, words[i].len());
            assert(w@ =~= words@[i as int]@);
            r.push(w);
            assert(seq_views(r@) =~= seq_views(r@.drop_last()).push(all[i as int]));
        }
        i = i + 1;
    }
    assert(all.take(words@.len() as int) =~= all);
    proof {
        lemma_dedup_first(all);
    }
    r
}

/// Replace markdown decoration with spaces so that differently decorated
/// renderings of the same words produce identical token sets.
pub fn normalize_for_tokens(text: &str) -> (r: String)
    ensures
        r@ == md_strip(text@),
{
    let v = chars_of(text);
    let mut out: Vec<char> = Vec::new();
    let mut i: usize = 0;
    assert(v@.skip(0) =~= v@);
    while i < v.len()
        invariant
            i <= v@.len(),
            v@ == text@,
            md_strip(v@) == out@ + md_strip(v@.skip(i as int)),
        decreases v@.len() - i,
    {
        let ghost rest = v@.skip(i as int);
        assert(rest[0] == v@[i as int]);
        if i + 1 < v.len() && v[i] == '*' && v[i + 1] == '*' {
            assert(rest[1] == v@[i + 1]);
            out.push(' ');
            assert(rest.skip(2) =~= v@.skip(i + 2));
            assert(out@ + md_strip(v@.skip(i + 2)) =~= out@.drop_last() + (seq![' '] + md_strip(
                v@.skip(i + 2),
            )));
            i = i + 2;
        } else {
            let c = v[i];
            proof {
                if rest.len() >= 2 {
                    assert(rest[1] == v@[i + 1]);
                }
            }
            if c == '[' || c == ']' || c == '(' || c == ')' || c == ':' {
                out.push(' ');
                assert(rest.drop_first() =~= v@.skip(i + 1));
                assert(out@ + md_strip(v@.skip(i + 1)) =~= out@.drop_last() + (seq![' ']
                    + md_strip(v@.skip(i + 1))));
            } else {
                out.push(c);
                assert(rest.drop_first() =~= v@.skip(i + 1));
                assert(out@ + md_strip(v@.skip(i + 1)) =~= out@.drop_last() + (seq![c] + md_strip(
                    v@.skip(i + 1),
                )));
            }
            i = i + 1;
        }
    }
    assert(md_strip(v@.skip(i as int)) =~= Seq::<char>::empty());
    assert(out@ + md_strip(v@.skip(i as int)) =~= out@);
    string_from_chars(&out)
}

/// The distinct lowercase word tokens of `text`, in first-occurrence order.
pub fn tokenize(text: &str) -> (r: Vec<String>)
    ensures
        str_views(r@) == token_seq(text@),
        str_views(r@).no_duplicates(),
        str_views(r@).to_set() == token_set(text@),
{
    let lowered = to_lowercase_str(text);
    let v = chars_of(lowered.as_str());
    let words = split_words_exec(&v);
    let deduped = dedup_words(words);
    let mut r: Vec<String> = Vec::new();
    let mut i: usize = 0;
    assert(str_views(r@) =~= seq_views(deduped@).take(0));
    while i < deduped.len()
        invariant
            i <= deduped@.len(),
            str_views(r@) == seq_views(deduped@).take(i as int),
        decreases deduped@.len() - i,
    {
        let ghost old_rs = str_views(r@);
        let s = string_from_chars(&deduped[i]);
        r.push(s);
        proof {
            assert(str_views(r@) =~= old_rs.push(s@));
            assert(seq_views(deduped@).take(i + 1) =~= seq_views(deduped@).take(i as int).push(
                seq_views(deduped@)[i as int],
            ));
        }
        i = i + 1;
    }
    assert(seq_views(deduped@).take(deduped@.len() as int) =~= seq_views(deduped@));
    proof {
        lemma_dedup_first(split_words(lower_of(text@)));
    }
    r
}

/// Tokenize after normalizing markdown, so that `**Focus:**` and `Focus`
/// yield the same tokens.
pub fn tokenize_normalized(text: &str) -> (r: Vec<String>)
    ensures
        str_views(r@) == token_seq(md_strip(text@)),
        str_views(r@).no_duplicates(),
        str_views(r@).to_set() == token_set(md_strip(text@)),
{
    let normalized = normalize_for_tokens(text);
    tokenize(normalized.as_str())
}

/// Whether `x` occurs among the strings of `v`.
pub(crate) fn contains_str(v: &Vec<String>, x: &str) -> (r: bool)
    ensures
        r == str_views(v@).contains(x@),
{
    let mut i: usize = 0;
    while i < v.len()
        invariant
            i <= v@.len(),
            forall|k: int| 0 <= k < i ==> str_views(v@)[k] != x@,
        decreases v@.len() - i,
    {
        if crate::text::str_eq(v[i].as_str(), x) {
            assert(str_views(v@)[i as int] == x@);
            return true;
        }
        i = i + 1;
    }
    false
}

/// Intersection and union cardinalities of two token sets, given as
/// duplicate-free token lists: the two counts whose quotient is the Jaccard
/// similarity.
pub fn jaccard_counts(a: &Vec<String>, b: &Vec<String>) -> (r: (usize, u128))
    requires
        str_views(a@).no_duplicates(),
        str_views(b@).no_duplicates(),
    ensures
        r.0 == str_views(a@).to_set().intersect(str_views(b@).to_set()).len(),
        r.1 == str_views(a@).to_set().union(str_views(b@).to_set()).len(),
        r.0 <= r.1,
        r.1 <= a@.len() + b@.len(),
        r.1 < 0x2_0000_0000_0000_0000u128,
{
    broadcast use vstd::seq_lib::seq_to_set_is_finite;
    broadcast use vstd::seq_lib::lemma_seq_contains_after_push;

    let ghost av = str_views(a@);
    let ghost bv = str_views(b@);
    proof {
        av.unique_seq_to_set();
        bv.unique_seq_to_set();
    }
    let mut inter: usize = 0;
    let mut union: u128 = a.len() as u128;
    let mut i: usize = 0;
    let bn = b.len();
    assert(bv.take(0) =~= Seq::<Seq<char>>::empty());
    assert(av.to_set().intersect(bv.take(0).to_set()) =~= Set::<Seq<char>>::empty());
    assert(av.to_set().union(bv.take(0).to_set()) =~= av.to_set());
    while i < bn
        invariant
            bn == b@.len(),
            i <= b@.len(),
            av == str_views(a@),
            bv == str_views(b@),
            av.no_duplicates(),
            bv.no_duplicates(),
            av.to_set().finite(),
            bv.take(i as int).to_set().finite(),
            av.to_set().len() == a@.len(),
            inter == av.to_set().intersect(bv.take(i as int).to_set()).len(),
            union == av.to_set().union(bv.take(i as int).to_set()).len(),
            inter <= i,
            union <= a@.len() + i,
            a@.len() <= usize::MAX,
            b@.len() <= usize::MAX,
        decreases b@.len() - i,
    {
        broadcast use vstd::seq_lib::seq_to_set_is_finite;
        broadcast use vstd::seq_lib::lemma_seq_contains_after_push;

        let ghost bi = bv.take(i as int).to_set();
        proof {
            assert(bv.take(i + 1) =~= bv.take(i as int).push(bv[i as int]));
            assert forall|y: Seq<char>| #[trigger] bv.take(i + 1).to_set().contains(y) implies
                bi.insert(bv[i as int]).contains(y) by {
                assert(bv.take(i + 1).contains(y));
            }
            assert forall|y: Seq<char>| #[trigger] bi.insert(bv[i as int]).contains(y) implies
                bv.take(i + 1).to_set().contains(y) by {
                assert(bv.take(i as int).contains(y) || y == bv[i as int]);
            }
            assert(bv.take(i + 1).to_set() =~= bi.insert(bv[i as int]));
            assert(!bv.take(i as int).contains(bv[i as int]));
            assert(!bi.contains(bv[i as int]));
        }
        let x = &b[i];
        if contains_str(a, x.as_str()) {
            proof {
                assert(av.to_set().contains(bv[i as int]));
                assert(av.to_set().intersect(bi.insert(bv[i as int])) =~= av.to_set().intersect(
                    bi,
                ).insert(bv[i as int]));
                assert(!av.to_set().intersect(bi).contains(bv[i as int]));
                assert(av.to_set().union(bi.insert(bv[i as int])) =~= av.to_set().union(bi));
                vstd::set_lib::lemma_len_intersect(av.to_set(), bi.insert(bv[i as int]));
            }
            inter = inter + 1;
        } else {
            proof {
                assert(!av.to_set().contains(bv[i as int]));
                assert(av.to_set().intersect(bi.insert(bv[i as int])) =~= av.to_set().intersect(
                    bi,
                ));
                assert(av.to_set().union(bi.insert(bv[i as int])) =~= av.to_set().union(
                    bi,
                ).insert(bv[i as int]));
                assert(!av.to_set().union(bi).contains(bv[i as int]));
            }
            union = union + 1;
        }
        i = i + 1;
    }
    proof {
        assert(bv.take(b@.len() as int) =~= bv);
        vstd::set_lib::lemma_len_intersect(av.to_set(), bv.to_set());
        vstd::set_lib::lemma_len_union_ind(av.to_set(), bv.to_set());
        assert(av.to_set().intersect(bv.to_set()).len() <= av.to_set().len());
        assert(av.to_set().union(bv.to_set()).len() >= av.to_set().len());
        assert(av.to_set().intersect(bv.to_set()).len() <= av.to_set().union(bv.to_set()).len());
    }
    (inter, union)
}

/// The Jaccard similarity of a set with itself is 1: the intersection and
/// the union both equal the set itself, so the two counts coincide — also
/// for the empty set, where both counts are 0 and the similarity is 1 by
/// convention.
pub proof fn lemma_jaccard_self(a: Set<Seq<char>>)
    ensures
        a.intersect(a) == a,
        a.union(a) == a,
{
    assert(a.intersect(a) =~= a);
    assert(a.union(a) =~= a);
}

/// Jaccard similarity is symmetric: intersection and union counts do not
/// depend on the order of the two sets.
pub proof fn lemma_jaccard_symmetric(a: Set<Seq<char>>, b: Set<Seq<char>>)
    ensures
        a.intersect(b) == b.intersect(a),
        a.union(b) == b.union(a),
{
    assert(a.intersect(b) =~= b.intersect(a));
    assert(a.union(b) =~= b.union(a));
}

} // verus!
