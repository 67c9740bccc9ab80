//! Similarity clustering engine: load the atom log, drop exact duplicates,
//! compare only atoms sharing at least one token through an inverted token
//! index, union similar pairs, and emit one cluster per connected component
//! with enough members.

use vstd::prelude::*;
use crate::text::{str_eq, str_views, string_from_chars, chars_of};
use crate::tokens::{token_set, md_strip, tokenize_normalized, jaccard_counts};
use crate::unionfind::{UnionFind, same_root, group_views, in_groups};

verus! {

/// Default similarity threshold, as the ratio 65 / 100.
pub const DEFAULT_THRESHOLD_NUM: u32 = 65;

/// Denominator of the default similarity threshold.
pub const DEFAULT_THRESHOLD_DEN: u32 = 100;

/// One member of an emitted cluster, with its provenance.
pub struct ClusterNote {
    pub source_file: String,
    pub line_start: u32,
    pub line_end: u32,
    pub text: String,
}

/// Model of a cluster member.
pub ghost struct NoteModel {
    pub source: Seq<char>,
    pub line_start: int,
    pub line_end: int,
    pub text: Seq<char>,
}

impl View for ClusterNote {
    type V = NoteModel;

    open spec fn view(&self) -> NoteModel {
        NoteModel {
            source: self.source_file@,
            line_start: self.line_start as int,
            line_end: self.line_end as int,
            text: self.text@,
        }
    }
}

/// One cluster as written to the cluster store.
pub struct ClusterFile {
    pub notes: Vec<ClusterNote>,
}

impl View for ClusterFile {
    type V = Seq<NoteModel>;

    open spec fn view(&self) -> Seq<NoteModel> {
        self.notes@.map_values(|n: ClusterNote| n@)
    }
}

/// One line of the atom log as the clustering engine reads it: every field
/// it looks at is optional on disk.
pub struct NoteRef {
    pub source: Option<String>,
    pub text: Option<String>,
    pub prov_source: Option<String>,
    pub prov_start: Option<u32>,
    pub prov_end: Option<u32>,
}

/// Model of such a line.
pub ghost struct NoteRefModel {
    pub source: Option<Seq<char>>,
    pub text: Option<Seq<char>>,
    pub prov_source: Option<Seq<char>>,
    pub prov_start: Option<int>,
    pub prov_end: Option<int>,
}

impl View for NoteRef {
    type V = NoteRefModel;

    open spec fn view(&self) -> NoteRefModel {
        NoteRefModel {
            source: match self.source {
                Some(ref s) => Some(s@),
                None => None,
            },
            text: match self.text {
                Some(ref s) => Some(s@),
                None => None,
            },
            prov_source: match self.prov_source {
                Some(ref s) => Some(s@),
                None => None,
            },
            prov_start: match self.prov_start {
                Some(v) => Some(v as int),
                None => None,
            },
            prov_end: match self.prov_end {
                Some(v) => Some(v as int),
                None => None,
            },
        }
    }
}

/// The note a log line stands for: provenance fields where present, the
/// `source` field as fallback, `?` as last resort, `0` for unknown lines.
pub open spec fn note_of_ref(r: NoteRefModel) -> NoteModel {
    NoteModel {
        source: match r.prov_source {
            Some(s) => s,
            None => match r.source {
                Some(s) => s,
                None => "?"@,
            },
        },
        line_start: match r.prov_start {
            Some(v) => v,
            None => 0,
        },
        line_end: match r.prov_end {
            Some(v) => v,
            None => 0,
        },
        text: match r.text {
            Some(t) => t,
            None => Seq::empty(),
        },
    }
}

/// Two notes carry the same provenance key.
pub open spec fn same_key(a: NoteModel, b: NoteModel) -> bool {
    a.source == b.source && a.line_start == b.line_start && a.line_end == b.line_end
}

/// A list of notes already holds this provenance key.
pub open spec fn key_seen(notes: Seq<NoteModel>, a: NoteModel) -> bool {
    exists|i: int| 0 <= i < notes.len() && same_key(notes[i], a)
}

/// The models of a list of note refs.
pub open spec fn ref_views(s: Seq<NoteRef>) -> Seq<NoteRefModel> {
    s.map_values(|r: NoteRef| r@)
}

/// The models of a list of cluster notes.
pub open spec fn note_views(s: Seq<ClusterNote>) -> Seq<NoteModel> {
    s.map_values(|n: ClusterNote| n@)
}

/// The log lines turned into notes, keeping only the first line with each
/// provenance key.
pub open spec fn dedup_atoms(rs: Seq<NoteRefModel>) -> Seq<NoteModel>
    decreases rs.len(),
{
    if rs.len() == 0 {
        Seq::empty()
    } else {
        let rest = dedup_atoms(rs.drop_last());
        let a = note_of_ref(rs.last());
        if key_seen(rest, a) {
            rest
        } else {
            rest.push(a)
        }
    }
}

/// The token set an atom's text contributes to the comparison.
pub open spec fn text_tokens(t: Seq<char>) -> Set<Seq<char>> {
    token_set(md_strip(t))
}

/// The token sets of a list of texts.
pub open spec fn toks_of(texts: Seq<Seq<char>>) -> Seq<Set<Seq<char>>> {
    texts.map_values(|t: Seq<char>| text_tokens(t))
}

/// Two atoms are similar enough to link: they share at least one token and
/// their Jaccard similarity reaches the threshold `num / den`.
pub open spec fn edge(tok: Seq<Set<Seq<char>>>, num: int, den: int, a: int, b: int) -> bool {
    0 <= a < tok.len() && 0 <= b < tok.len() && a != b && tok[a].intersect(tok[b]).len() >= 1
        && den * tok[a].intersect(tok[b]).len() >= num * tok[a].union(tok[b]).len()
}

/// A chain of similar atoms from `a` to `b`.
pub open spec fn is_path(
    tok: Seq<Set<Seq<char>>>,
    num: int,
    den: int,
    p: Seq<int>,
    a: int,
    b: int,
) -> bool {
    p.len() >= 1 && p[0] == a && p.last() == b && forall|k: int|
        0 <= k < p.len() - 1 ==> edge(tok, num, den, p[k], #[trigger] p[k + 1])
}

/// `a` and `b` belong to the same similarity component: they are equal or
/// linked by a chain of similar atoms.
pub open spec fn connected(tok: Seq<Set<Seq<char>>>, num: int, den: int, a: int, b: int) -> bool {
    a == b || exists|p: Seq<int>| is_path(tok, num, den, p, a, b)
}

/// A similar pair is connected.
pub proof fn lemma_edge_connected(tok: Seq<Set<Seq<char>>>, num: int, den: int, a: int, b: int)
    requires
        edge(tok, num, den, a, b),
    ensures
        connected(tok, num, den, a, b),
{
    let p = seq![a, b];
    assert(p[0int + 1] == b);
    assert(is_path(tok, num, den, p, a, b));
}

/// Similarity is symmetric, so edges run both ways.
pub proof fn lemma_edge_symmetric(tok: Seq<Set<Seq<char>>>, num: int, den: int, a: int, b: int)
    requires
        edge(tok, num, den, a, b),
    ensures
        edge(tok, num, den, b, a),
{
    assert(tok[a].intersect(tok[b]) =~= tok[b].intersect(tok[a]));
    assert(tok[a].union(tok[b]) =~= tok[b].union(tok[a]));
}

/// Chains concatenate: connectivity is transitive.
pub proof fn lemma_connected_trans(
    tok: Seq<Set<Seq<char>>>,
    num: int,
    den: int,
    a: int,
    b: int,
    c: int,
)
    requires
        connected(tok, num, den, a, b),
        connected(tok, num, den, b, c),
    ensures
        connected(tok, num, den, a, c),
{
    if a == b || b == c {
    } else {
        let p1 = choose|p: Seq<int>| is_path(tok, num, den, p, a, b);
        let p2 = choose|p: Seq<int>| is_path(tok, num, den, p, b, c);
        let p = p1 + p2.drop_first();
        assert(p[0] == a);
        assert(p.last() == c);
        assert forall|k: int| 0 <= k < p.len() - 1 implies edge(
            tok,
            num,
            den,
            p[k],
            #[trigger] p[k + 1],
        ) by {
            if k < p1.len() - 1 {
                assert(p[k] == p1[k] && p[k + 1] == p1[k + 1]);
            } else if k == p1.len() - 1 {
                if p2.len() >= 2 {
                    assert(p[k] == p1.last());
                    assert(p[k + 1] == p2[1]);
                    assert(edge(tok, num, den, p2[0], p2[0int + 1]));
                }
            } else {
                let k2 = k - p1.len();
                assert(p[k] == p2[k2 + 1 - 1 + 1 - 1 + 1]);
                assert(p[k] == p2.drop_first()[k2]);
                assert(p[k + 1] == p2.drop_first()[k2 + 1]);
                assert(p2.drop_first()[k2] == p2[k2 + 1]);
                assert(p2.drop_first()[k2 + 1] == p2[k2 + 2]);
                assert(edge(tok, num, den, p2[k2 + 1], p2[k2 + 1 + 1]));
            }
        }
        assert(is_path(tok, num, den, p, a, c));
    }
}

/// Chains reverse: connectivity is symmetric.
pub proof fn lemma_connected_symmetric(
    tok: Seq<Set<Seq<char>>>,
    num: int,
    den: int,
    a: int,
    b: int,
)
    requires
        connected(tok, num, den, a, b),
    ensures
        connected(tok, num, den, b, a),
{
    if a != b {
        let p = choose|q: Seq<int>| is_path(tok, num, den, q, a, b);
        let r = Seq::new(p.len(), |k: int| p[p.len() - 1 - k]);
        assert(r[0] == b);
        assert(r.last() == a);
        assert forall|k: int| 0 <= k < r.len() - 1 implies edge(
            tok,
            num,
            den,
            r[k],
            #[trigger] r[k + 1],
        ) by {
            let m = p.len() - 2 - k;
            assert(r[k] == p[m + 1]);
            assert(r[k + 1] == p[m]);
            assert(edge(tok, num, den, p[m], p[m + 1]));
            lemma_edge_symmetric(tok, num, den, p[m], p[m + 1]);
        }
        assert(is_path(tok, num, den, r, b, a));
    }
}

/// A pair of atom indices has been compared (in normalized order), or is
/// trivially the same atom.
pub open spec fn pair_marked(c: Seq<Vec<bool>>, x: usize, y: usize) -> bool {
    x == y || if x < y {
        c[x as int]@[y as int]
    } else {
        c[y as int]@[x as int]
    }
}

/// One posting list of the inverted token index.
struct TokenEntry {
    token: String,
    atoms: Vec<usize>,
}

/// Some posting list for token `t` carries atom `j`.
spec fn has_posting(es: Seq<TokenEntry>, t: Seq<char>, j: usize) -> bool {
    exists|e: int| 0 <= e < es.len() && es[e].token@ == t && es[e].atoms@.contains(j)
}

/// Atoms linked stepwise by a chain of marked unions share a representative.
proof fn lemma_path_same_root(
    tok: Seq<Set<Seq<char>>>,
    num: int,
    den: int,
    uf: Seq<usize>,
    path: Seq<int>,
    a: int,
    b: int,
)
    requires
        is_path(tok, num, den, path, a, b),
        forall|x: int, y: int| edge(tok, num, den, x, y) ==> #[trigger] same_root(uf, x, y),
    ensures
        same_root(uf, a, b),
    decreases path.len(),
{
    if path.len() == 1 {
    } else {
        assert(edge(tok, num, den, path[0], path[0int + 1]));
        let rest = path.drop_first();
        assert(rest[0] == path[1]);
        assert(rest.last() == path.last());
        assert forall|k: int| 0 <= k < rest.len() - 1 implies edge(
            tok,
            num,
            den,
            rest[k],
            #[trigger] rest[k + 1],
        ) by {
            assert(rest[k] == path[k + 1]);
            assert(rest[k + 1] == path[k + 2]);
            assert(edge(tok, num, den, path[k + 1], path[k + 1 + 1]));
        }
        lemma_path_same_root(tok, num, den, uf, rest, path[1], b);
        assert(same_root(uf, a, path[1]));
    }
}

/// Partition the atoms with these texts into similarity components: two
/// atoms stand in one returned group exactly when a chain of pairs, each
/// sharing a token and meeting the Jaccard threshold `num / den`, links
/// them. Groups list their members in increasing order, and every atom
/// appears in exactly one group (singletons included).
pub fn similarity_components(texts: &Vec<String>, threshold_num: u32, threshold_den: u32) -> (gs:
    Vec<Vec<usize>>)
    ensures
        ({
            let tok = toks_of(str_views(texts@));
            let num = threshold_num as int;
            let den = threshold_den as int;
            &&& forall|k: int| 0 <= k < group_views(gs@).len() ==> group_views(gs@)[k].len() >= 1
            &&& forall|k: int, m: int|
                0 <= k < group_views(gs@).len() && 0 <= m < group_views(gs@)[k].len()
                    ==> group_views(gs@)[k][m] < texts@.len()
            &&& forall|k: int, m1: int, m2: int|
                0 <= k < group_views(gs@).len() && 0 <= m1 < m2 < group_views(gs@)[k].len()
                    ==> group_views(gs@)[k][m1] < group_views(gs@)[k][m2]
            &&& forall|k: int, m1: int, m2: int|
                0 <= k < group_views(gs@).len() && 0 <= m1 < group_views(gs@)[k].len() && 0 <= m2
                    < group_views(gs@)[k].len() ==> connected(
                    tok,
                    num,
                    den,
                    group_views(gs@)[k][m1] as int,
                    group_views(gs@)[k][m2] as int,
                )
            &&& forall|k1: int, k2: int, m1: int, m2: int|
                0 <= k1 < group_views(gs@).len() && 0 <= k2 < group_views(gs@).len() && k1 != k2
                    && 0 <= m1 < group_views(gs@)[k1].len() && 0 <= m2 < group_views(
                    gs@,
                )[k2].len() ==> !connected(
                    tok,
                    num,
                    den,
                    group_views(gs@)[k1][m1] as int,
                    group_views(gs@)[k2][m2] as int,
                )
            &&& forall|x: int| 0 <= x < texts@.len() ==> #[trigger] in_groups(group_views(gs@), x)
        }),
{
    broadcast use vstd::seq_lib::seq_to_set_is_finite;

    let ghost tok = toks_of(str_views(texts@));
    let ghost num = threshold_num as int;
    let ghost den = threshold_den as int;
    let n = texts.len();

    // Token set per atom.
    let mut tokens: Vec<Vec<String>> = Vec::new();
    let mut i: usize = 0;
    while i < n
        invariant
            i <= n,
            n == texts@.len(),
            tok == toks_of(str_views(texts@)),
            tokens@.len() == i,
            forall|j: int|
                0 <= j < i ==> str_views(#[trigger] tokens@[j]@).no_duplicates() && str_views(
                    tokens@[j]@,
                ).to_set() == tok[j],
        decreases n - i,
    {
        let ts = tokenize_normalized(texts[i].as_str());
        tokens.push(ts);
        i = i + 1;
    }

    // Inverted index: token -> atoms carrying it, distinct tokens.
    let mut entries: Vec<TokenEntry> = Vec::new();
    let mut idx: usize = 0;
    while idx < n
        invariant
            idx <= n,
            n == texts@.len(),
            tokens@.len() == n,
            forall|j: int|
                0 <= j < n ==> str_views(#[trigger] tokens@[j]@).no_duplicates() && str_views(
                    tokens@[j]@,
                ).to_set() == tok[j],
            tok.len() == n,
            forall|e1: int, e2: int|
                0 <= e1 < e2 < entries@.len() ==> entries@[e1].token@ != entries@[e2].token@,
            forall|e: int, p: int|
                0 <= e < entries@.len() && 0 <= p < entries@[e].atoms@.len() ==> (#[trigger]
                entries@[e].atoms@[p]) < n && tok[entries@[e].atoms@[p] as int].contains(
                    entries@[e].token@,
                ),
            forall|j: usize, t: Seq<char>|
                j < idx && #[trigger] tok[j as int].contains(t) ==> has_posting(entries@, t, j),
        decreases n - idx,
    {
        let tcount = tokens[idx].len();
        let mut tpos: usize = 0;
        while tpos < tcount
            invariant
                tpos <= tcount,
                idx < n,
                n == texts@.len(),
                tokens@.len() == n,
                tcount == tokens@[idx as int]@.len(),
                forall|j: int|
                    0 <= j < n ==> str_views(#[trigger] tokens@[j]@).no_duplicates() && str_views(
                        tokens@[j]@,
                    ).to_set() == tok[j],
                tok.len() == n,
                forall|e1: int, e2: int|
                    0 <= e1 < e2 < entries@.len() ==> entries@[e1].token@ != entries@[e2].token@,
                forall|e: int, p: int|
                    0 <= e < entries@.len() && 0 <= p < entries@[e].atoms@.len() ==> (#[trigger]
                    entries@[e].atoms@[p]) < n && tok[entries@[e].atoms@[p] as int].contains(
                        entries@[e].token@,
                    ),
                forall|j: usize, t: Seq<char>|
                    j < idx && #[trigger] tok[j as int].contains(t) ==> has_posting(
                        entries@,
                        t,
                        j,
                    ),
                forall|tp: int|
                    0 <= tp < tpos ==> has_posting(
                        entries@,
                        #[trigger] str_views(tokens@[idx as int]@)[tp],
                        idx,
                    ),
            decreases tcount - tpos,
        {
            let ghost t = str_views(tokens@[idx as int]@)[tpos as int];
            proof {
                assert(str_views(tokens@[idx as int]@).contains(t));
                assert(tok[idx as int].contains(t));
            }
            // find the posting list for this token
            let mut q: usize = 0;
            let mut found = false;
            loop
                invariant_except_break
                    !found,
                invariant
                    q <= entries@.len(),
                    idx < tokens@.len(),
                    t == str_views(tokens@[idx as int]@)[tpos as int],
                    tpos < tcount,
                    tcount == tokens@[idx as int]@.len(),
                    forall|e: int| 0 <= e < q ==> entries@[e].token@ != t,
                ensures
                    found ==> q < entries@.len() && entries@[q as int].token@ == t,
                    !found ==> forall|e: int| 0 <= e < entries@.len() ==> entries@[e].token@
                        != t,
                decreases entries@.len() - q,
            {
                if q == entries.len() {
                    break ;
                }
                if str_eq(entries[q].token.as_str(), tokens[idx][tpos].as_str()) {
                    found = true;
                    break ;
                }
                q = q + 1;
            }
            let ghost pre = entries@;
            if found {
                let e = &mut entries[q];
                e.atoms.push(idx);
                proof {
                    assert(entries@.len() == pre.len());
                    assert(entries@[q as int].token@ == t);
                    assert(entries@[q as int].atoms@ == pre[q as int].atoms@.push(idx));
                    assert(entries@[q as int].atoms@.last() == idx);
                    assert(entries@[q as int].atoms@.contains(idx));
                    assert(forall|e2: int|
                        0 <= e2 < pre.len() && e2 != q ==> entries@[e2] == pre[e2]);
                    assert forall|j: usize, t2: Seq<char>|
                        j < idx && #[trigger] tok[j as int].contains(t2) implies has_posting(
                        entries@,
                        t2,
                        j,
                    ) by {
                        let e2 = choose|e2: int|
                            0 <= e2 < pre.len() && pre[e2].token@ == t2
                                && pre[e2].atoms@.contains(j);
                        if e2 == q {
                            let p2 = choose|p2: int|
                                0 <= p2 < pre[e2].atoms@.len() && pre[e2].atoms@[p2] == j;
                            assert(entries@[e2].atoms@[p2] == j);
                            assert(entries@[e2].atoms@.contains(j));
                        } else {
                            assert(entries@[e2].atoms@.contains(j));
                        }
                    }
                    assert forall|tp: int|
                        0 <= tp < tpos + 1 implies has_posting(
                        entries@,
                        #[trigger] str_views(tokens@[idx as int]@)[tp],
                        idx,
                    ) by {
                        if tp < tpos {
                            let t2 = str_views(tokens@[idx as int]@)[tp];
                            let e2 = choose|e2: int|
                                0 <= e2 < pre.len() && pre[e2].token@ == t2
                                    && pre[e2].atoms@.contains(idx);
                            if e2 == q {
                                let p2 = choose|p2: int|
                                    0 <= p2 < pre[e2].atoms@.len() && pre[e2].atoms@[p2] == idx;
                                assert(entries@[e2].atoms@[p2] == idx);
                                assert(entries@[e2].atoms@.contains(idx));
                            } else {
                                assert(entries@[e2].atoms@.contains(idx));
                            }
                        } else {
                            assert(entries@[q as int].atoms@.contains(idx));
                        }
                    }
                }
            } else {
                let tv = chars_of(tokens[idx][tpos].as_str());
                let mut atoms: Vec<usize> = Vec::new();
                atoms.push(idx);
                let entry = TokenEntry { token: string_from_chars(&tv), atoms };
                entries.push(entry);
                proof {
                    assert(entries@.len() == pre.len() + 1);
                    assert(entries@.last().token@ == t);
                    assert(entries@.last().atoms@[0] == idx);
                    assert(entries@.last().atoms@.contains(idx));
                    assert(forall|e2: int| 0 <= e2 < pre.len() ==> entries@[e2] == pre[e2]);
                    assert forall|j: usize, t2: Seq<char>|
                        j < idx && #[trigger] tok[j as int].contains(t2) implies has_posting(
                        entries@,
                        t2,
                        j,
                    ) by {
                        let e2 = choose|e2: int|
                            0 <= e2 < pre.len() && pre[e2].token@ == t2
                                && pre[e2].atoms@.contains(j);
                        assert(entries@[e2].atoms@.contains(j));
                    }
                    assert forall|tp: int|
                        0 <= tp < tpos + 1 implies has_posting(
                        entries@,
                        #[trigger] str_views(tokens@[idx as int]@)[tp],
                        idx,
                    ) by {
                        if tp < tpos {
                            let t2 = str_views(tokens@[idx as int]@)[tp];
                            let e2 = choose|e2: int|
                                0 <= e2 < pre.len() && pre[e2].token@ == t2
                                    && pre[e2].atoms@.contains(idx);
                            assert(entries@[e2].atoms@.contains(idx));
                        } else {
                            assert(entries@[entries@.len() - 1].atoms@.contains(idx));
                        }
                    }
                }
            }
            tpos = tpos + 1;
        }
        proof {
            assert forall|j: usize, t2: Seq<char>|
                j < idx + 1 && #[trigger] tok[j as int].contains(t2) implies has_posting(
                entries@,
                t2,
                j,
            ) by {
                if j == idx {
                    assert(str_views(tokens@[idx as int]@).to_set().contains(t2));
                    assert(str_views(tokens@[idx as int]@).contains(t2));
                    let tp = choose|tp: int|
                        0 <= tp < str_views(tokens@[idx as int]@).len() && str_views(
                            tokens@[idx as int]@,
                        )[tp] == t2;
                    assert(has_posting(entries@, str_views(tokens@[idx as int]@)[tp], idx));
                }
            }
        }
        idx = idx + 1;
    }
    let gs = components_of_index(texts, &tokens, &entries, threshold_num, threshold_den);
    gs
}

/// Compare every pair of atoms that share a posting list — each pair at
/// most once — union the similar ones, and read off the components.
fn components_of_index(
    texts: &Vec<String>,
    tokens: &Vec<Vec<String>>,
    entries: &Vec<TokenEntry>,
    threshold_num: u32,
    threshold_den: u32,
) -> (gs: Vec<Vec<usize>>)
    requires
        tokens@.len() == texts@.len(),
        forall|j: int|
            0 <= j < texts@.len() ==> str_views(#[trigger] tokens@[j]@).no_duplicates()
                && str_views(tokens@[j]@).to_set() == toks_of(str_views(texts@))[j],
        forall|e1: int, e2: int|
            0 <= e1 < e2 < entries@.len() ==> entries@[e1].token@ != entries@[e2].token@,
        forall|e: int, p: int|
            0 <= e < entries@.len() && 0 <= p < entries@[e].atoms@.len() ==> (#[trigger]
            entries@[e].atoms@[p]) < texts@.len() && toks_of(str_views(texts@))[entries@[e].atoms@[p] as int].contains(entries@[e].token@),
        forall|j: usize, t: Seq<char>|
            j < texts@.len() && #[trigger] toks_of(str_views(texts@))[j as int].contains(t) ==> has_posting(entries@, t, j),
    ensures
        ({
            let tok = toks_of(str_views(texts@));
            let num = threshold_num as int;
            let den = threshold_den as int;
            &&& forall|k: int| 0 <= k < group_views(gs@).len() ==> group_views(gs@)[k].len() >= 1
            &&& forall|k: int, m: int|
                0 <= k < group_views(gs@).len() && 0 <= m < group_views(gs@)[k].len()
                    ==> group_views(gs@)[k][m] < texts@.len()
            &&& forall|k: int, m1: int, m2: int|
                0 <= k < group_views(gs@).len() && 0 <= m1 < m2 < group_views(gs@)[k].len()
                    ==> group_views(gs@)[k][m1] < group_views(gs@)[k][m2]
            &&& forall|k: int, m1: int, m2: int|
                0 <= k < group_views(gs@).len() && 0 <= m1 < group_views(gs@)[k].len() && 0 <= m2
                    < group_views(gs@)[k].len() ==> connected(
                    tok,
                    num,
                    den,
                    group_views(gs@)[k][m1] as int,
                    group_views(gs@)[k][m2] as int,
                )
            &&& forall|k1: int, k2: int, m1: int, m2: int|
                0 <= k1 < group_views(gs@).len() && 0 <= k2 < group_views(gs@).len() && k1 != k2
                    && 0 <= m1 < group_views(gs@)[k1].len() && 0 <= m2 < group_views(
                    gs@,
                )[k2].len() ==> !connected(
                    tok,
                    num,
                    den,
                    group_views(gs@)[k1][m1] as int,
                    group_views(gs@)[k2][m2] as int,
                )
            &&& forall|x: int| 0 <= x < texts@.len() ==> #[trigger] in_groups(group_views(gs@), x)
        }),
{
    broadcast use vstd::seq_lib::seq_to_set_is_finite;

    let ghost tok = toks_of(str_views(texts@));
    let ghost num = threshold_num as int;
    let ghost den = threshold_den as int;
    let n = texts.len();

    let mut compared: Vec<Vec<bool>> = Vec::new();
    let mut r0: usize = 0;
    while r0 < n
        invariant
            r0 <= n,
            compared@.len() == r0,
            forall|a: int|
                0 <= a < r0 ==> (#[trigger] compared@[a])@.len() == n && forall|b: int|
                    0 <= b < n ==> !compared@[a]@[b],
        decreases n - r0,
    {
        let mut row: Vec<bool> = Vec::new();
        let mut c0: usize = 0;
        while c0 < n
            invariant
                c0 <= n,
                row@.len() == c0,
                forall|b: int| 0 <= b < c0 ==> !row@[b],
            decreases n - c0,
        {
            row.push(false);
            c0 = c0 + 1;
        }
        compared.push(row);
        r0 = r0 + 1;
    }

    let mut uf = UnionFind::new(n);
    let mut ei: usize = 0;
    while ei < entries.len()
        invariant
            ei <= entries@.len(),
            n == texts@.len(),
            tok == toks_of(str_views(texts@)),
            num == threshold_num as int,
            den == threshold_den as int,
            tok.len() == n,
            tokens@.len() == n,
            forall|j: int|
                0 <= j < n ==> str_views(#[trigger] tokens@[j]@).no_duplicates() && str_views(
                    tokens@[j]@,
                ).to_set() == tok[j],
            forall|e: int, p: int|
                0 <= e < entries@.len() && 0 <= p < entries@[e].atoms@.len() ==> (#[trigger]
                entries@[e].atoms@[p]) < n && tok[entries@[e].atoms@[p] as int].contains(
                    entries@[e].token@,
                ),
            uf.wf(),
            uf@.len() == n,
            compared@.len() == n,
            forall|a: int| 0 <= a < n ==> (#[trigger] compared@[a])@.len() == n,
            forall|a: int, b: int|
                0 <= a < n && 0 <= b < n && same_root(uf@, a, b) ==> connected(tok, num, den, a, b),
            forall|a: int, b: int|
                0 <= a < n && 0 <= b < n && compared@[a]@[b] && edge(tok, num, den, a, b)
                    ==> same_root(uf@, a, b),
            forall|e: int, p1: int, p2: int|
                0 <= e < ei && 0 <= p1 < p2 < entries@[e].atoms@.len() ==> pair_marked(
                    compared@,
                    #[trigger] entries@[e].atoms@[p1],
                    #[trigger] entries@[e].atoms@[p2],
                ),
        decreases entries@.len() - ei,
    {
        let alen = entries[ei].atoms.len();
        let mut p1: usize = 0;
        while p1 < alen
            invariant
                p1 <= alen,
                ei < entries@.len(),
                alen == entries@[ei as int].atoms@.len(),
                n == texts@.len(),
                tok == toks_of(str_views(texts@)),
                num == threshold_num as int,
                den == threshold_den as int,
                tok.len() == n,
                tokens@.len() == n,
                forall|j: int|
                    0 <= j < n ==> str_views(#[trigger] tokens@[j]@).no_duplicates()
                        && str_views(tokens@[j]@).to_set() == tok[j],
                forall|e: int, p: int|
                    0 <= e < entries@.len() && 0 <= p < entries@[e].atoms@.len() ==> (#[trigger]
                    entries@[e].atoms@[p]) < n && tok[entries@[e].atoms@[p] as int].contains(
                        entries@[e].token@,
                    ),
                uf.wf(),
                uf@.len() == n,
                compared@.len() == n,
                forall|a: int| 0 <= a < n ==> (#[trigger] compared@[a])@.len() == n,
                forall|a: int, b: int|
                    0 <= a < n && 0 <= b < n && same_root(uf@, a, b) ==> connected(
                        tok,
                        num,
                        den,
                        a,
                        b,
                    ),
                forall|a: int, b: int|
                    0 <= a < n && 0 <= b < n && compared@[a]@[b] && edge(tok, num, den, a, b)
                        ==> same_root(uf@, a, b),
                forall|e: int, q1: int, q2: int|
                    0 <= e < ei && 0 <= q1 < q2 < entries@[e].atoms@.len() ==> pair_marked(
                        compared@,
                        #[trigger] entries@[e].atoms@[q1],
                        #[trigger] entries@[e].atoms@[q2],
                    ),
                forall|q1: int, q2: int|
                    0 <= q1 < p1 && q1 < q2 < alen ==> pair_marked(
                        compared@,
                        #[trigger] entries@[ei as int].atoms@[q1],
                        #[trigger] entries@[ei as int].atoms@[q2],
                    ),
            decreases alen - p1,
        {
            let mut p2: usize = p1 + 1;
            while p2 < alen
                invariant
                    p1 < alen,
                    p1 + 1 <= p2 <= alen,
                    ei < entries@.len(),
                    alen == entries@[ei as int].atoms@.len(),
                    n == texts@.len(),
                    tok == toks_of(str_views(texts@)),
                    num == threshold_num as int,
                    den == threshold_den as int,
                    tok.len() == n,
                    tokens@.len() == n,
                    forall|j: int|
                        0 <= j < n ==> str_views(#[trigger] tokens@[j]@).no_duplicates()
                            && str_views(tokens@[j]@).to_set() == tok[j],
                    forall|e: int, p: int|
                        0 <= e < entries@.len() && 0 <= p < entries@[e].atoms@.len() ==> (
                        #[trigger] entries@[e].atoms@[p]) < n && tok[entries@[e].atoms@[
                            p
                        ] as int].contains(entries@[e].token@),
                    uf.wf(),
                    uf@.len() == n,
                    compared@.len() == n,
                    forall|a: int| 0 <= a < n ==> (#[trigger] compared@[a])@.len() == n,
                    forall|a: int, b: int|
                        0 <= a < n && 0 <= b < n && same_root(uf@, a, b) ==> connected(
                            tok,
                            num,
                            den,
                            a,
                            b,
                        ),
                    forall|a: int, b: int|
                        0 <= a < n && 0 <= b < n && compared@[a]@[b] && edge(tok, num, den, a, b)
                            ==> same_root(uf@, a, b),
                    forall|e: int, q1: int, q2: int|
                        0 <= e < ei && 0 <= q1 < q2 < entries@[e].atoms@.len() ==> pair_marked(
                            compared@,
                            #[trigger] entries@[e].atoms@[q1],
                            #[trigger] entries@[e].atoms@[q2],
                        ),
                    forall|q1: int, q2: int|
                        0 <= q1 < p1 && q1 < q2 < alen ==> pair_marked(
                            compared@,
                            #[trigger] entries@[ei as int].atoms@[q1],
                            #[trigger] entries@[ei as int].atoms@[q2],
                        ),
                    forall|q2: int|
                        p1 < q2 < p2 ==> pair_marked(
                            compared@,
                            entries@[ei as int].atoms@[p1 as int],
                            #[trigger] entries@[ei as int].atoms@[q2],
                        ),
                decreases alen - p2,
            {
                let x = entries[ei].atoms[p1];
                let y = entries[ei].atoms[p2];
                if x != y {
                    let (a, b) = if x < y {
                        (x, y)
                    } else {
                        (y, x)
                    };
                    let already = compared[a][b];
                    if !already {
                        let ghost pre_c = compared@;
                        let row = &mut compared[a];
                        row[b] = true;
                        proof {
                            assert(compared@[a as int]@[b as int]);
                            assert(forall|a2: int|
                                0 <= a2 < n && a2 != a ==> compared@[a2] == pre_c[a2]);
                            assert(forall|b2: int|
                                0 <= b2 < n && b2 != b ==> compared@[a as int]@[b2]
                                    == pre_c[a as int]@[b2]);
                        }
                        let counts = jaccard_counts(&tokens[x], &tokens[y]);
                        let inter = counts.0;
                        let uni = counts.1;
                        let ghost t0 = entries@[ei as int].token@;
                        proof {
                            assert(tok[x as int].contains(t0));
                            assert(tok[y as int].contains(t0));
                            assert(tok[x as int].intersect(tok[y as int]).contains(t0));
                            if tok[x as int].intersect(tok[y as int]).len() == 0 {
                                tok[x as int].intersect(tok[y as int]).lemma_len0_is_empty();
                            }
                            assert(tok[x as int].intersect(tok[y as int]).len() >= 1);
                            vstd::arithmetic::mul::lemma_mul_upper_bound(
                                inter as int,
                                0x2_0000_0000_0000_0000,
                                threshold_den as int,
                                u32::MAX as int,
                            );
                            vstd::arithmetic::mul::lemma_mul_upper_bound(
                                uni as int,
                                0x2_0000_0000_0000_0000,
                                threshold_num as int,
                                u32::MAX as int,
                            );
                        }
                        let similar = (inter as u128) * (threshold_den as u128) >= uni * (
                        threshold_num as u128);
                        proof {
                            let li: int = tok[x as int].intersect(tok[y as int]).len() as int;
                            let lu: int = tok[x as int].union(tok[y as int]).len() as int;
                            assert(inter as int == li);
                            assert(uni as int == lu);
                            assert((inter as u128) * (threshold_den as u128) == den * li)
                                by (nonlinear_arith)
                                requires
                                    inter as u128 == li,
                                    threshold_den as u128 == den,
                            ;
                            assert(uni * (threshold_num as u128) == num * lu)
                                by (nonlinear_arith)
                                requires
                                    uni == lu,
                                    threshold_num as u128 == num,
                            ;
                            assert(similar == (den * tok[x as int].intersect(
                                tok[y as int],
                            ).len() >= num * tok[x as int].union(tok[y as int]).len()));
                        }
                        if similar {
                            proof {
                                assert(edge(tok, num, den, x as int, y as int));
                                lemma_edge_symmetric(tok, num, den, x as int, y as int);
                            }
                            let ghost pre_uf = uf@;
                            uf.union(x, y);
                            proof {
                                assert forall|a2: int, b2: int|
                                    0 <= a2 < n && 0 <= b2 < n && same_root(
                                        uf@,
                                        a2,
                                        b2,
                                    ) implies connected(tok, num, den, a2, b2) by {
                                    if same_root(pre_uf, a2, b2) {
                                    } else if same_root(pre_uf, a2, x as int) && same_root(
                                        pre_uf,
                                        b2,
                                        y as int,
                                    ) {
                                        lemma_edge_connected(tok, num, den, x as int, y as int);
                                        lemma_connected_trans(tok, num, den, a2, x as int, y as int);
                                        lemma_connected_symmetric(tok, num, den, b2, y as int);
                                        lemma_connected_trans(tok, num, den, a2, y as int, b2);
                                    } else {
                                        lemma_edge_connected(tok, num, den, y as int, x as int);
                                        lemma_connected_trans(tok, num, den, a2, y as int, x as int);
                                        lemma_connected_symmetric(tok, num, den, b2, x as int);
                                        lemma_connected_trans(tok, num, den, a2, x as int, b2);
                                    }
                                }
                            }
                        } else {
                            proof {
                                assert(tok[a as int].intersect(tok[b as int]) =~= tok[
                                    x as int
                                ].intersect(tok[y as int]));
                                assert(tok[a as int].union(tok[b as int]) =~= tok[
                                    x as int
                                ].union(tok[y as int]));
                                assert(!edge(tok, num, den, a as int, b as int));
                            }
                        }
                    }
                }
                proof {
                    assert(pair_marked(
                        compared@,
                        entries@[ei as int].atoms@[p1 as int],
                        entries@[ei as int].atoms@[p2 as int],
                    ));
                }
                p2 = p2 + 1;
            }
            p1 = p1 + 1;
        }
        ei = ei + 1;
    }

    // Every similar pair shares a token, so its posting list brought the two
    // atoms together and the pair was compared and unioned.
    proof {
        assert forall|x: int, y: int| edge(tok, num, den, x, y) implies #[trigger] same_root(
            uf@,
            x,
            y,
        ) by {
            let t = tok[x].intersect(tok[y]).choose();
            assert(tok[x].intersect(tok[y]).len() >= 1);
            if !tok[x].intersect(tok[y]).contains(t) {
                if tok[x].intersect(tok[y]).len() == 0 {
                    tok[x].intersect(tok[y]).lemma_len0_is_empty();
                }
                assert(tok[x].intersect(tok[y]).len() >= 1);
                assert(tok[x].intersect(tok[y]).contains(t));
            }
            assert(tok[x].contains(t) && tok[y].contains(t));
            assert(has_posting(entries@, t, x as usize));
            assert(has_posting(entries@, t, y as usize));
            let e1 = choose|e: int|
                0 <= e < entries@.len() && entries@[e].token@ == t && entries@[e].atoms@.contains(
                    x as usize,
                );
            let e2 = choose|e: int|
                0 <= e < entries@.len() && entries@[e].token@ == t && entries@[e].atoms@.contains(
                    y as usize,
                );
            assert(e1 == e2);
            let q1 = choose|q: int|
                0 <= q < entries@[e1].atoms@.len() && entries@[e1].atoms@[q] == x as usize;
            let q2 = choose|q: int|
                0 <= q < entries@[e1].atoms@.len() && entries@[e1].atoms@[q] == y as usize;
            assert(q1 != q2);
            if q1 < q2 {
                assert(pair_marked(compared@, x as usize, y as usize));
            } else {
                assert(pair_marked(compared@, y as usize, x as usize));
            }
            lemma_edge_symmetric(tok, num, den, x, y);
            if (x as usize) < (y as usize) {
                assert(compared@[x]@[y]);
            } else {
                assert(compared@[y]@[x]);
                assert(same_root(uf@, y, x));
            }
        }
    }
    let ghost uf_final = uf@;
    let gs = uf.groups();
    proof {
        assert forall|k: int, m1: int, m2: int|
            0 <= k < group_views(gs@).len() && 0 <= m1 < group_views(gs@)[k].len() && 0 <= m2
                < group_views(gs@)[k].len() implies connected(
            tok,
            num,
            den,
            group_views(gs@)[k][m1] as int,
            group_views(gs@)[k][m2] as int,
        ) by {
            assert(same_root(uf_final, group_views(gs@)[k][m1] as int, group_views(
                gs@,
            )[k][m2] as int));
        }
        assert forall|k1: int, k2: int, m1: int, m2: int|
            0 <= k1 < group_views(gs@).len() && 0 <= k2 < group_views(gs@).len() && k1 != k2 && 0
                <= m1 < group_views(gs@)[k1].len() && 0 <= m2 < group_views(
                gs@,
            )[k2].len() implies !connected(
            tok,
            num,
            den,
            group_views(gs@)[k1][m1] as int,
            group_views(gs@)[k2][m2] as int,
        ) by {
            let a = group_views(gs@)[k1][m1] as int;
            let b = group_views(gs@)[k2][m2] as int;
            assert(!same_root(uf_final, a, b));
            if connected(tok, num, den, a, b) {
                if a == b {
                } else {
                    let path = choose|p: Seq<int>| is_path(tok, num, den, p, a, b);
                    lemma_path_same_root(tok, num, den, uf_final, path, a, b);
                }
            }
        }
    }
    gs
}
pub fn dedup_records(records: &Vec<NoteRef>) -> (r: Vec<ClusterNote>)
    ensures
        note_views(r@) == dedup_atoms(ref_views(records@)),
{
    let ghost rviews = ref_views(records@);
    let mut r: Vec<ClusterNote> = Vec::new();
    let mut i: usize = 0;
    assert(note_views(r@) =~= dedup_atoms(rviews.take(0)));
    while i < records.len()
        invariant
            i <= records@.len(),
            rviews == ref_views(records@),
            note_views(r@) == dedup_atoms(rviews.take(i as int)),
        decreases records@.len() - i,
    {
        proof {
            assert(rviews.take(i + 1).drop_last() =~= rviews.take(i as int));
            assert(rviews.take(i + 1).last() == rviews[i as int]);
            assert(rviews[i as int] == records@[i as int]@);
        }
        let rec = &records[i];
        let source_file: &str = match &rec.prov_source {
            Some(s) => s.as_str(),
            None => match &rec.source {
                Some(s) => s.as_str(),
                None => "?",
            },
        };
        let line_start: u32 = match rec.prov_start {
            Some(v) => v,
            None => 0,
        };
        let line_end: u32 = match rec.prov_end {
            Some(v) => v,
            None => 0,
        };
        let text: &str = match &rec.text {
            Some(t) => t.as_str(),
            None => "",
        };
        let ghost a = note_of_ref(rviews[i as int]);
        proof {
            reveal_strlit("");
            assert(""@ =~= Seq::<char>::empty());
        }
        assert(source_file@ == a.source && line_start as int == a.line_start && line_end as int
            == a.line_end && text@ == a.text);
        let mut seen = false;
        let mut k: usize = 0;
        loop
            invariant_except_break
                !seen,
            invariant
                k <= r@.len(),
                source_file@ == a.source,
                line_start as int == a.line_start,
                line_end as int == a.line_end,
                forall|m: int| 0 <= m < k ==> !same_key(note_views(r@)[m], a),
            ensures
                seen ==> key_seen(note_views(r@), a),
                !seen ==> !key_seen(note_views(r@), a),
            decreases r@.len() - k,
        {
            if k == r.len() {
                break ;
            }
            let n = &r[k];
            if n.line_start == line_start && n.line_end == line_end && str_eq(
                n.source_file.as_str(),
                source_file,
            ) {
                assert(note_views(r@)[k as int] == r@[k as int]@);
                assert(same_key(note_views(r@)[k as int], a));
                seen = true;
                break ;
            }
            assert(note_views(r@)[k as int] == r@[k as int]@);
            k = k + 1;
        }
        if !seen {
            assert(!key_seen(note_views(r@), a));
            let ghost pre = note_views(r@);
            let sv = chars_of(source_file);
            let tv = chars_of(text);
            let note = ClusterNote {
                source_file: string_from_chars(&sv),
                line_start,
                line_end,
                text: string_from_chars(&tv),
            };
            r.push(note);
            proof {
                assert(note_views(r@) =~= pre.push(a));
            }
        }
        i = i + 1;
    }
    assert(rviews.take(records@.len() as int) =~= rviews);
    r
}

/// Every two distinct deduplicated atoms differ in their provenance key.
pub proof fn lemma_dedup_atoms_distinct(rs: Seq<NoteRefModel>)
    ensures
        forall|i: int, j: int|
            0 <= i < j < dedup_atoms(rs).len() ==> !same_key(
                #[trigger] dedup_atoms(rs)[i],
                #[trigger] dedup_atoms(rs)[j],
            ),
    decreases rs.len(),
{
    if rs.len() > 0 {
        lemma_dedup_atoms_distinct(rs.drop_last());
        let rest = dedup_atoms(rs.drop_last());
        let a = note_of_ref(rs.last());
        if !key_seen(rest, a) {
            assert forall|i: int, j: int|
                0 <= i < j < rest.push(a).len() implies !same_key(
                #[trigger] rest.push(a)[i],
                #[trigger] rest.push(a)[j],
            ) by {
                if j < rest.len() {
                } else {
                    assert(rest.push(a)[i] == rest[i]);
                    assert(!same_key(rest[i], a));
                }
            }
        }
    }
}

/// The texts of a list of notes.
pub open spec fn texts_of(atoms: Seq<NoteModel>) -> Seq<Seq<char>> {
    atoms.map_values(|a: NoteModel| a.text)
}

/// `x` is one of the given notes.
pub open spec fn note_from(atoms: Seq<NoteModel>, x: NoteModel) -> bool {
    exists|i: int| 0 <= i < atoms.len() && atoms[i] == x
}

/// A list of distinct atom indices that all belong to one similarity
/// component.
pub open spec fn component_witness(
    tok: Seq<Set<Seq<char>>>,
    num: int,
    den: int,
    members: Seq<int>,
) -> bool {
    &&& members.no_duplicates()
    &&& forall|a: int| 0 <= a < members.len() ==> 0 <= #[trigger] members[a] < tok.len()
    &&& forall|a: int, b: int|
        0 <= a < members.len() && 0 <= b < members.len() ==> connected(
            tok,
            num,
            den,
            #[trigger] members[a],
            #[trigger] members[b],
        )
}

/// `x` appears in one of the emitted clusters.
pub open spec fn in_clusters(out: Seq<Seq<NoteModel>>, x: NoteModel) -> bool {
    exists|k: int, m: int| 0 <= k < out.len() && 0 <= m < out[k].len() && out[k][m] == x
}

/// Some cluster was built from group `g`.
spec fn group_emitted(gmap: Seq<int>, g: int) -> bool {
    exists|c: int| 0 <= c < gmap.len() && gmap[c] == g
}

/// Cluster the atom log: drop exact provenance-key duplicates, group the
/// remaining atoms into similarity components over their token sets, and
/// emit one cluster per component with at least `min_atoms` members —
/// smaller components, singletons included, are omitted. With fewer than
/// `min_atoms` atoms in the whole log, no clusters are emitted at all.
pub fn cluster_notes(
    records: &Vec<NoteRef>,
    threshold_num: u32,
    threshold_den: u32,
    min_atoms: usize,
) -> (r: Vec<ClusterFile>)
    ensures
        ({
            let atoms = dedup_atoms(ref_views(records@));
            let tok = toks_of(texts_of(atoms));
            let num = threshold_num as int;
            let den = threshold_den as int;
            let out = r@.map_values(|c: ClusterFile| c@);
            &&& atoms.len() < min_atoms ==> out.len() == 0
            &&& forall|k: int| 0 <= k < out.len() ==> (#[trigger] out[k]).len() >= min_atoms
            &&& forall|k: int, m1: int, m2: int|
                0 <= k < out.len() && 0 <= m1 < m2 < out[k].len() ==> #[trigger] out[k][m1]
                    != #[trigger] out[k][m2]
            &&& forall|k: int, m: int|
                0 <= k < out.len() && 0 <= m < out[k].len() ==> note_from(
                    atoms,
                    #[trigger] out[k][m],
                )
            &&& forall|k: int, m1: int, m2: int, i1: int, i2: int|
                0 <= k < out.len() && 0 <= m1 < out[k].len() && 0 <= m2 < out[k].len() && 0 <= i1
                    < atoms.len() && 0 <= i2 < atoms.len() && atoms[i1] == out[k][m1] && atoms[i2]
                    == out[k][m2] ==> connected(tok, num, den, i1, i2)
            &&& forall|k1: int, k2: int, m1: int, m2: int, i1: int, i2: int|
                0 <= k1 < out.len() && 0 <= k2 < out.len() && k1 != k2 && 0 <= m1 < out[k1].len()
                    && 0 <= m2 < out[k2].len() && 0 <= i1 < atoms.len() && 0 <= i2 < atoms.len()
                    && atoms[i1] == out[k1][m1] && atoms[i2] == out[k2][m2] ==> !connected(
                    tok,
                    num,
                    den,
                    i1,
                    i2,
                )
            &&& forall|members: Seq<int>, j: int|
                #[trigger] component_witness(tok, num, den, members) && members.len() >= min_atoms
                    && 0 <= j < members.len() ==> in_clusters(out, atoms[#[trigger] members[j]])
        }),
{
    let ghost atoms_v = dedup_atoms(ref_views(records@));
    let ghost tok = toks_of(texts_of(atoms_v));
    let ghost num = threshold_num as int;
    let ghost den = threshold_den as int;
    proof {
        lemma_dedup_atoms_distinct(ref_views(records@));
    }
    let atoms = dedup_records(records);
    if atoms.len() < min_atoms {
        let r: Vec<ClusterFile> = Vec::new();
        assert(r@.map_values(|c: ClusterFile| c@) =~= Seq::<Seq<NoteModel>>::empty());
        proof {
            let outm = r@.map_values(|c: ClusterFile| c@);
            assert forall|members: Seq<int>, j: int|
                #[trigger] component_witness(tok, num, den, members) && members.len() >= min_atoms
                    && 0 <= j < members.len() implies in_clusters(
                outm,
                atoms_v[#[trigger] members[j]],
            ) by {
                members.unique_seq_to_set();
                let range = vstd::set_lib::set_int_range(0, tok.len() as int);
                vstd::set_lib::lemma_int_range(0, tok.len() as int);
                assert(members.to_set().subset_of(range));
                vstd::set_lib::lemma_len_subset(members.to_set(), range);
                assert(members.len() <= tok.len());
                assert(tok.len() == atoms_v.len());
                assert(false);
            }
        }
        return r;
    }
    let n = atoms.len();
    let mut texts: Vec<String> = Vec::new();
    let mut i: usize = 0;
    assert(str_views(texts@) =~= texts_of(atoms_v).take(0));
    while i < n
        invariant
            i <= n,
            n == atoms@.len(),
            note_views(atoms@) == atoms_v,
            str_views(texts@) == texts_of(atoms_v).take(i as int),
        decreases n - i,
    {
        let ghost pre = str_views(texts@);
        texts.push(atoms[i].text.clone());
        proof {
            assert(str_views(texts@) =~= pre.push(atoms@[i as int].text@));
            assert(atoms@[i as int]@ == note_views(atoms@)[i as int]);
            assert(texts_of(atoms_v).take(i + 1) =~= texts_of(atoms_v).take(i as int).push(
                texts_of(atoms_v)[i as int],
            ));
        }
        i = i + 1;
    }
    assert(str_views(texts@) =~= texts_of(atoms_v)) by {
        assert(texts_of(atoms_v).take(n as int) =~= texts_of(atoms_v));
    }
    let gs = similarity_components(&texts, threshold_num, threshold_den);
    let ghost gviews = group_views(gs@);
    let mut out: Vec<ClusterFile> = Vec::new();
    let ghost gmap0: Seq<int> = Seq::empty();
    let mut gmap: Ghost<Seq<int>> = Ghost(gmap0);
    let mut k: usize = 0;
    while k < gs.len()
        invariant
            k <= gs@.len(),
            gviews == group_views(gs@),
            n == atoms@.len(),
            note_views(atoms@) == atoms_v,
            tok == toks_of(texts_of(atoms_v)),
            num == threshold_num as int,
            den == threshold_den as int,
            forall|g: int| 0 <= g < gviews.len() ==> (#[trigger] gviews[g]).len() >= 1,
            forall|g: int, m: int|
                0 <= g < gviews.len() && 0 <= m < gviews[g].len() ==> (#[trigger] gviews[g][m])
                    < n,
            forall|g: int, m1: int, m2: int|
                0 <= g < gviews.len() && 0 <= m1 < gviews[g].len() && 0 <= m2 < gviews[g].len()
                    ==> connected(tok, num, den, gviews[g][m1] as int, gviews[g][m2] as int),
            forall|g1: int, g2: int, m1: int, m2: int|
                0 <= g1 < gviews.len() && 0 <= g2 < gviews.len() && g1 != g2 && 0 <= m1
                    < gviews[g1].len() && 0 <= m2 < gviews[g2].len() ==> !connected(
                    tok,
                    num,
                    den,
                    gviews[g1][m1] as int,
                    gviews[g2][m2] as int,
                ),
            gmap@.len() == out@.len(),
            forall|c: int| 0 <= c < out@.len() ==> 0 <= #[trigger] gmap@[c] < gviews.len(),
            forall|c: int| 0 <= c < out@.len() ==> #[trigger] gmap@[c] < k,
            forall|c1: int, c2: int| 0 <= c1 < c2 < out@.len() ==> gmap@[c1] != gmap@[c2],
            forall|c: int|
                0 <= c < out@.len() ==> (#[trigger] out@[c]@).len() == gviews[gmap@[c]].len()
                    && out@[c]@.len() >= min_atoms,
            forall|c: int, m: int|
                0 <= c < out@.len() && 0 <= m < out@[c]@.len() ==> #[trigger] out@[c]@[m]
                    == atoms_v[gviews[gmap@[c]][m] as int],
            forall|g: int|
                0 <= g < k && (#[trigger] gviews[g]).len() >= min_atoms ==> group_emitted(
                    gmap@,
                    g,
                ),
        decreases gs@.len() - k,
    {
        let ghost old_gmap = gmap@;
        let glen = gs[k].len();
        if glen >= min_atoms {
            let mut notes: Vec<ClusterNote> = Vec::new();
            let mut m: usize = 0;
            while m < glen
                invariant
                    m <= glen,
                    k < gs@.len(),
                    gviews == group_views(gs@),
                    glen == gviews[k as int].len(),
                    n == atoms@.len(),
                    note_views(atoms@) == atoms_v,
                    forall|mm: int|
                        0 <= mm < gviews[k as int].len() ==> (#[trigger] gviews[k as int][mm])
                            < n,
                    note_views(notes@).len() == m,
                    forall|mm: int|
                        0 <= mm < m ==> #[trigger] note_views(notes@)[mm] == atoms_v[gviews[
                            k as int
                        ][mm] as int],
                decreases glen - m,
            {
                let idx = gs[k][m];
                let ghost pre = note_views(notes@);
                let note = ClusterNote {
                    source_file: atoms[idx].source_file.clone(),
                    line_start: atoms[idx].line_start,
                    line_end: atoms[idx].line_end,
                    text: atoms[idx].text.clone(),
                };
                notes.push(note);
                proof {
                    assert(note_views(notes@) =~= pre.push(notes@.last()@));
                    assert(atoms@[idx as int]@ == atoms_v[idx as int]);
                    assert(note_views(notes@)[m as int] == atoms_v[gviews[k as int][
                        m as int
                    ] as int]);
                }
                m = m + 1;
            }

            let cf = ClusterFile { notes };
            out.push(cf);
            proof {
                gmap@ = gmap@.push(k as int);
                assert(out@[out@.len() - 1]@ == note_views(out@.last().notes@));
            }
        }
        proof {
            assert forall|g: int|
                0 <= g < k + 1 && (#[trigger] gviews[g]).len() >= min_atoms implies group_emitted(
                gmap@,
                g,
            ) by {
                if g < k {
                    let c = choose|c: int| 0 <= c < old_gmap.len() && old_gmap[c] == g;
                    assert(gmap@[c] == g);
                } else {
                    assert(gmap@[gmap@.len() - 1] == k as int);
                }
            }
        }
        k = k + 1;
    }
    proof {
        let outm = out@.map_values(|c: ClusterFile| c@);
        assert forall|i1: int, i2: int|
            0 <= i1 < atoms_v.len() && 0 <= i2 < atoms_v.len() && atoms_v[i1] == atoms_v[
                i2
            ] implies i1 == i2 by {
            if i1 < i2 {
                assert(!same_key(atoms_v[i1], atoms_v[i2]));
            } else if i2 < i1 {
                assert(!same_key(atoms_v[i2], atoms_v[i1]));
            }
        }
        assert forall|k1: int, m1: int, m2: int|
            0 <= k1 < outm.len() && 0 <= m1 < m2 < outm[k1].len() implies #[trigger] outm[k1][m1]
            != #[trigger] outm[k1][m2] by {
            let g = gmap@[k1];
            let j1 = gviews[g][m1] as int;
            let j2 = gviews[g][m2] as int;
            assert(gviews[g][m1] < gviews[g][m2]);
            assert(outm[k1][m1] == atoms_v[j1]);
            assert(outm[k1][m2] == atoms_v[j2]);
            assert(!same_key(atoms_v[j1], atoms_v[j2]));
        }
        assert forall|c: int, m: int|
            0 <= c < outm.len() && 0 <= m < outm[c].len() implies note_from(
            atoms_v,
            #[trigger] outm[c][m],
        ) by {
            let i2 = gviews[gmap@[c]][m] as int;
            assert(atoms_v[i2] == outm[c][m]);
        }
        assert forall|k1: int, m1: int, m2: int, i1: int, i2: int|
            0 <= k1 < outm.len() && 0 <= m1 < outm[k1].len() && 0 <= m2 < outm[k1].len() && 0
                <= i1 < atoms_v.len() && 0 <= i2 < atoms_v.len() && atoms_v[i1] == outm[k1][m1]
                && atoms_v[i2] == outm[k1][m2] implies connected(tok, num, den, i1, i2) by {
            let g = gmap@[k1];
            let j1 = gviews[g][m1] as int;
            let j2 = gviews[g][m2] as int;
            assert(atoms_v[i1] == atoms_v[j1]);
            assert(atoms_v[i2] == atoms_v[j2]);
            assert(i1 == j1 && i2 == j2);
            assert(connected(tok, num, den, gviews[g][m1] as int, gviews[g][m2] as int));
        }
        assert forall|k1: int, k2: int, m1: int, m2: int, i1: int, i2: int|
            0 <= k1 < outm.len() && 0 <= k2 < outm.len() && k1 != k2 && 0 <= m1 < outm[k1].len()
                && 0 <= m2 < outm[k2].len() && 0 <= i1 < atoms_v.len() && 0 <= i2
                < atoms_v.len() && atoms_v[i1] == outm[k1][m1] && atoms_v[i2] == outm[k2][
                m2
            ] implies !connected(tok, num, den, i1, i2) by {
            let g1 = gmap@[k1];
            let g2 = gmap@[k2];
            let j1 = gviews[g1][m1] as int;
            let j2 = gviews[g2][m2] as int;
            assert(atoms_v[i1] == atoms_v[j1]);
            assert(atoms_v[i2] == atoms_v[j2]);
            assert(i1 == j1 && i2 == j2);
            if k1 < k2 {
                assert(gmap@[k1] != gmap@[k2]);
            } else {
                assert(gmap@[k2] != gmap@[k1]);
            }
            assert(!connected(tok, num, den, gviews[g1][m1] as int, gviews[g2][m2] as int));
        }
        assert forall|members: Seq<int>, j: int|
            #[trigger] component_witness(tok, num, den, members) && members.len() >= min_atoms
                && 0 <= j < members.len() implies in_clusters(
            outm,
            atoms_v[#[trigger] members[j]],
        ) by {
            let i = members[j];
            assert(0 <= i < n as int);
            assert(in_groups(gviews, i));
            let (g, mi) = choose|g: int, mi: int|
                0 <= g < gviews.len() && 0 <= mi < gviews[g].len() && gviews[g][mi] == i;
            let fcast = |u: usize| u as int;
            let gints = gviews[g].map_values(fcast);
            assert forall|a: int| 0 <= a < members.len() implies gints.contains(
                #[trigger] members[a],
            ) by {
                assert(connected(tok, num, den, members[j], members[a]));
                assert(in_groups(gviews, members[a]));
                let (g2, m2) = choose|g2: int, m2: int|
                    0 <= g2 < gviews.len() && 0 <= m2 < gviews[g2].len() && gviews[g2][m2]
                        == members[a];
                if g2 != g {
                    assert(!connected(
                        tok,
                        num,
                        den,
                        gviews[g][mi] as int,
                        gviews[g2][m2] as int,
                    ));
                }
                assert(g2 == g);
                assert(gints[m2] == members[a]);
            }
            assert forall|a: int, b: int| 0 <= a < b < gints.len() implies gints[a] != gints[
                b
            ] by {
                assert(gviews[g][a] < gviews[g][b]);
            }
            assert(gints.no_duplicates());
            members.unique_seq_to_set();
            gints.unique_seq_to_set();
            assert forall|x: int| members.to_set().contains(x) implies gints.to_set().contains(
                x,
            ) by {
                let a = choose|a: int| 0 <= a < members.len() && members[a] == x;
                assert(gints.contains(members[a]));
            }
            vstd::set_lib::lemma_len_subset(members.to_set(), gints.to_set());
            assert(gviews[g].len() >= min_atoms);
            assert(group_emitted(gmap@, g));
            let c = choose|c: int| 0 <= c < gmap@.len() && gmap@[c] == g;
            assert(outm[c][mi] == atoms_v[gviews[g][mi] as int]);
            assert(in_clusters(outm, atoms_v[i]));
        }
    }
    out
}

} // verus!
