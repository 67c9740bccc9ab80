//! Chunker: segment one document's text into ordered atoms with 1-based
//! line-number provenance. Structured markup is split by fence, heading,
//! bullet and paragraph rules; any other format falls back to one atom per
//! non-blank line.

use vstd::prelude::*;
use crate::text::{
    chars_of, join_char, join_with, seq_views, split_lines, split_lines_spec, string_from_chars,
    subrange_chars, trim_chars, trim_spec, trim_start_chars, trim_start_spec, first_newline,
    lemma_first_newline,
};

verus! {

/// Structural origin of an atom.
#[derive(Clone, Copy, Debug, PartialEq, Eq, Structural)]
pub enum AtomKind {
    Heading,
    Bullet,
    Paragraph,
    CodeBlock,
    Line,
}

impl AtomKind {
    /// The label this kind carries in the atom log.
    pub open spec fn spec_str(self) -> Seq<char> {
        match self {
            AtomKind::Heading => "heading"@,
            AtomKind::Bullet => "bullet"@,
            AtomKind::Paragraph => "paragraph"@,
            AtomKind::CodeBlock => "code_block"@,
            AtomKind::Line => "line"@,
        }
    }

    /// The label this kind carries in the atom log.
    pub fn as_str(&self) -> (r: &'static str)
        ensures
            r@ == self.spec_str(),
    {
        match self {
            AtomKind::Heading => "heading",
            AtomKind::Bullet => "bullet",
            AtomKind::Paragraph => "paragraph",
            AtomKind::CodeBlock => "code_block",
            AtomKind::Line => "line",
        }
    }
}

/// Mathematical model of a chunk: a kind, a text, and a 1-based line span.
pub ghost struct ChunkModel {
    pub line_start: int,
    pub line_end: int,
    pub kind: AtomKind,
    pub text: Seq<char>,
}

/// One atom candidate produced by the chunker.
pub struct Chunk {
    pub line_start: u32,
    pub line_end: u32,
    pub kind: AtomKind,
    pub text: String,
}

impl View for Chunk {
    type V = ChunkModel;

    open spec fn view(&self) -> ChunkModel {
        ChunkModel {
            line_start: self.line_start as int,
            line_end: self.line_end as int,
            kind: self.kind,
            text: self.text@,
        }
    }
}

/// The models of a list of chunks.
pub open spec fn chunk_views(s: Seq<Chunk>) -> Seq<ChunkModel> {
    s.map_values(|c: Chunk| c@)
}

/// A line that opens or closes a code fence.
pub open spec fn is_fence(l: Seq<char>) -> bool {
    l.len() >= 3 && l[0] == '`' && l[1] == '`' && l[2] == '`'
}

/// A heading line: begins with `#`.
pub open spec fn is_heading(l: Seq<char>) -> bool {
    l.len() >= 1 && l[0] == '#'
}

/// A top-level bullet line: left-trimmed form starts with `- ` or `* `.
pub open spec fn is_bullet(l: Seq<char>) -> bool {
    let t = trim_start_spec(l);
    t.len() >= 2 && (t[0] == '-' || t[0] == '*') && t[1] == ' '
}

/// A line holding only space characters, or nothing.
pub open spec fn is_blank(l: Seq<char>) -> bool {
    trim_spec(l).len() == 0
}

/// Number of leading `#` characters of a heading line.
pub open spec fn hash_run(l: Seq<char>) -> int
    decreases l.len(),
{
    if l.len() == 0 {
        0
    } else if l[0] != '#' {
        0
    } else {
        1 + hash_run(l.drop_first())
    }
}

pub proof fn lemma_hash_run(l: Seq<char>)
    ensures
        0 <= hash_run(l) <= l.len(),
        forall|k: int| 0 <= k < hash_run(l) ==> l[k] == '#',
        hash_run(l) < l.len() ==> l[hash_run(l)] != '#',
    decreases l.len(),
{
    if l.len() == 0 {
    } else if l[0] != '#' {
    } else {
        lemma_hash_run(l.drop_first());
        assert forall|k: int| 0 <= k < hash_run(l) implies l[k] == '#' by {
            if k > 0 {
                assert(l[k] == l.drop_first()[k - 1]);
            }
        }
    }
}

/// Text of a heading: the line with every leading `#` removed, trimmed.
pub open spec fn heading_text(l: Seq<char>) -> Seq<char> {
    trim_spec(l.skip(hash_run(l)))
}

/// Text of a bullet: everything after the two-character marker, trimmed.
pub open spec fn bullet_text(l: Seq<char>) -> Seq<char> {
    trim_spec(trim_start_spec(l).skip(2))
}

/// Index of the first fence line at or after `j`, or `lines.len()`.
pub open spec fn fence_close(lines: Seq<Seq<char>>, j: int) -> int
    decreases lines.len() - j,
{
    if !(0 <= j < lines.len()) {
        lines.len() as int
    } else if is_fence(lines[j]) {
        j
    } else {
        fence_close(lines, j + 1)
    }
}

pub proof fn lemma_fence_close(lines: Seq<Seq<char>>, j: int)
    requires
        0 <= j <= lines.len(),
    ensures
        j <= fence_close(lines, j) <= lines.len(),
    decreases lines.len() - j,
{
    if j < lines.len() && !is_fence(lines[j]) {
        lemma_fence_close(lines, j + 1);
    }
}

/// A line that ends a paragraph run: blank, or one of the special forms.
pub open spec fn breaks_para(l: Seq<char>) -> bool {
    is_blank(l) || is_fence(l) || is_heading(l) || is_bullet(l)
}

/// Index of the first paragraph-breaking line at or after `j`, or `lines.len()`.
pub open spec fn para_end(lines: Seq<Seq<char>>, j: int) -> int
    decreases lines.len() - j,
{
    if !(0 <= j < lines.len()) {
        lines.len() as int
    } else if breaks_para(lines[j]) {
        j
    } else {
        para_end(lines, j + 1)
    }
}

pub proof fn lemma_para_end(lines: Seq<Seq<char>>, j: int)
    requires
        0 <= j <= lines.len(),
    ensures
        j <= para_end(lines, j) <= lines.len(),
    decreases lines.len() - j,
{
    if j < lines.len() && !breaks_para(lines[j]) {
        lemma_para_end(lines, j + 1);
    }
}

/// The chunks of a structured document, reading `lines` from index `i` on.
/// Rules apply in priority order: code fence, heading, bullet, paragraph;
/// blank lines are skipped, and heading or bullet chunks whose text comes
/// out empty are dropped.
pub open spec fn chunks_from(lines: Seq<Seq<char>>, i: int) -> Seq<ChunkModel>
    decreases lines.len() - i,
    via chunks_from_decreases
{
    if !(0 <= i < lines.len()) {
        Seq::empty()
    } else {
        let l = lines[i];
        if is_fence(l) {
            let c = fence_close(lines, i + 1);
            let end = if c < lines.len() {
                c + 1
            } else {
                lines.len() as int
            };
            let text = trim_spec(join_with(lines.subrange(i, end), seq!['\n']));
            seq![
                ChunkModel {
                    line_start: i + 1,
                    line_end: end,
                    kind: AtomKind::CodeBlock,
                    text,
                },
            ] + chunks_from(lines, end)
        } else if is_heading(l) {
            let text = heading_text(l);
            let rest = chunks_from(lines, i + 1);
            if text.len() == 0 {
                rest
            } else {
                seq![
                    ChunkModel {
                        line_start: i + 1,
                        line_end: i + 1,
                        kind: AtomKind::Heading,
                        text,
                    },
                ] + rest
            }
        } else if is_bullet(l) {
            let text = bullet_text(l);
            let rest = chunks_from(lines, i + 1);
            if text.len() == 0 {
                rest
            } else {
                seq![
                    ChunkModel {
                        line_start: i + 1,
                        line_end: i + 1,
                        kind: AtomKind::Bullet,
                        text,
                    },
                ] + rest
            }
        } else if !is_blank(l) {
            let e = para_end(lines, i + 1);
            let text = trim_spec(
                join_with(lines.subrange(i, e).map_values(|p: Seq<char>| trim_spec(p)), seq![' ']),
            );
            let next = if e < lines.len() && is_blank(lines[e]) {
                e + 1
            } else {
                e
            };
            let rest = chunks_from(lines, next);
            if text.len() == 0 {
                rest
            } else {
                seq![
                    ChunkModel {
                        line_start: i + 1,
                        line_end: e,
                        kind: AtomKind::Paragraph,
                        text,
                    },
                ] + rest
            }
        } else {
            chunks_from(lines, i + 1)
        }
    }
}

#[via_fn]
proof fn chunks_from_decreases(lines: Seq<Seq<char>>, i: int) {
    if 0 <= i < lines.len() {
        lemma_fence_close(lines, i + 1);
        lemma_para_end(lines, i + 1);
    }
}

/// The chunks of a structured (markup) document.
pub open spec fn markdown_chunks(content: Seq<char>) -> Seq<ChunkModel> {
    chunks_from(split_lines_spec(content), 0)
}

/// The chunks of a plain document, from index `i` on: one `Line` atom per
/// non-blank line, trimmed.
pub open spec fn plain_chunks_from(lines: Seq<Seq<char>>, i: int) -> Seq<ChunkModel>
    decreases lines.len() - i,
{
    if !(0 <= i < lines.len()) {
        Seq::empty()
    } else if is_blank(lines[i]) {
        plain_chunks_from(lines, i + 1)
    } else {
        seq![
            ChunkModel {
                line_start: i + 1,
                line_end: i + 1,
                kind: AtomKind::Line,
                text: trim_spec(lines[i]),
            },
        ] + plain_chunks_from(lines, i + 1)
    }
}

/// The chunks of a plain (fallback-format) document.
pub open spec fn plain_chunks(content: Seq<char>) -> Seq<ChunkModel> {
    plain_chunks_from(split_lines_spec(content), 0)
}

/// Atoms are emitted in strictly increasing line order: every atom starts
/// at or after the cursor, and later atoms start on later lines.
pub proof fn lemma_chunks_spans(lines: Seq<Seq<char>>, i: int)
    ensures
        forall|j: int|
            0 <= j < chunks_from(lines, i).len() ==> #[trigger] chunks_from(
                lines,
                i,
            )[j].line_start >= i + 1,
        forall|j1: int, j2: int|
            0 <= j1 < j2 < chunks_from(lines, i).len() ==> chunks_from(lines, i)[j1].line_start
                < chunks_from(lines, i)[j2].line_start,
    decreases lines.len() - i,
{
    if !(0 <= i < lines.len()) {
    } else {
        let l = lines[i];
        let cs = chunks_from(lines, i);
        if is_fence(l) {
            let c = fence_close(lines, i + 1);
            lemma_fence_close(lines, i + 1);
            let end = if c < lines.len() {
                c + 1
            } else {
                lines.len() as int
            };
            lemma_chunks_spans(lines, end);
            assert(forall|j: int|
                1 <= j < cs.len() ==> cs[j] == chunks_from(lines, end)[j - 1]);
        } else if is_heading(l) {
            lemma_chunks_spans(lines, i + 1);
            if heading_text(l).len() != 0 {
                assert(forall|j: int|
                    1 <= j < cs.len() ==> cs[j] == chunks_from(lines, i + 1)[j - 1]);
            }
        } else if is_bullet(l) {
            lemma_chunks_spans(lines, i + 1);
            if bullet_text(l).len() != 0 {
                assert(forall|j: int|
                    1 <= j < cs.len() ==> cs[j] == chunks_from(lines, i + 1)[j - 1]);
            }
        } else if !is_blank(l) {
            let e = para_end(lines, i + 1);
            lemma_para_end(lines, i + 1);
            let next = if e < lines.len() && is_blank(lines[e]) {
                e + 1
            } else {
                e
            };
            lemma_chunks_spans(lines, next);
            let text = trim_spec(
                join_with(lines.subrange(i, e).map_values(|p: Seq<char>| trim_spec(p)), seq![' ']),
            );
            if text.len() != 0 {
                assert(forall|j: int|
                    1 <= j < cs.len() ==> cs[j] == chunks_from(lines, next)[j - 1]);
            }
        } else {
            lemma_chunks_spans(lines, i + 1);
        }
    }
}

/// Plain atoms too are emitted in strictly increasing line order.
pub proof fn lemma_plain_spans(lines: Seq<Seq<char>>, i: int)
    ensures
        forall|j: int|
            0 <= j < plain_chunks_from(lines, i).len() ==> #[trigger] plain_chunks_from(
                lines,
                i,
            )[j].line_start >= i + 1,
        forall|j1: int, j2: int|
            0 <= j1 < j2 < plain_chunks_from(lines, i).len() ==> plain_chunks_from(
                lines,
                i,
            )[j1].line_start < plain_chunks_from(lines, i)[j2].line_start,
    decreases lines.len() - i,
{
    if !(0 <= i < lines.len()) {
    } else {
        lemma_plain_spans(lines, i + 1);
        if !is_blank(lines[i]) {
            assert(forall|j: int|
                1 <= j < plain_chunks_from(lines, i).len() ==> plain_chunks_from(lines, i)[j]
                    == plain_chunks_from(lines, i + 1)[j - 1]);
        }
    }
}

/// A chunk moved down one line: same kind and text, both span ends + 1.
pub open spec fn shift_chunk(c: ChunkModel) -> ChunkModel {
    ChunkModel {
        line_start: c.line_start + 1,
        line_end: c.line_end + 1,
        kind: c.kind,
        text: c.text,
    }
}

proof fn lemma_fence_close_prepend(x: Seq<char>, lines: Seq<Seq<char>>, j: int)
    requires
        0 <= j <= lines.len(),
    ensures
        fence_close(seq![x] + lines, j + 1) == fence_close(lines, j) + 1,
    decreases lines.len() - j,
{
    let lines2 = seq![x] + lines;
    if j == lines.len() {
    } else {
        assert(lines2[j + 1] == lines[j]);
        if !is_fence(lines[j]) {
            lemma_fence_close_prepend(x, lines, j + 1);
        }
    }
}

proof fn lemma_para_end_prepend(x: Seq<char>, lines: Seq<Seq<char>>, j: int)
    requires
        0 <= j <= lines.len(),
    ensures
        para_end(seq![x] + lines, j + 1) == para_end(lines, j) + 1,
    decreases lines.len() - j,
{
    let lines2 = seq![x] + lines;
    if j == lines.len() {
    } else {
        assert(lines2[j + 1] == lines[j]);
        if !breaks_para(lines[j]) {
            lemma_para_end_prepend(x, lines, j + 1);
        }
    }
}

/// Prepending one line moves every later atom down one line and changes no
/// text: the rules only ever look at lines at or after the cursor.
pub proof fn lemma_chunks_prepend(x: Seq<char>, lines: Seq<Seq<char>>, j: int)
    requires
        0 <= j <= lines.len(),
    ensures
        chunks_from(seq![x] + lines, j + 1) == chunks_from(lines, j).map_values(
            |c: ChunkModel| shift_chunk(c),
        ),
    decreases lines.len() - j,
{
    let lines2 = seq![x] + lines;
    let f = |c: ChunkModel| shift_chunk(c);
    if j == lines.len() {
        assert(chunks_from(lines2, j + 1) =~= chunks_from(lines, j).map_values(f));
    } else {
        let l = lines[j];
        assert(lines2[j + 1] == l);
        if is_fence(l) {
            let c = fence_close(lines, j + 1);
            lemma_fence_close(lines, j + 1);
            lemma_fence_close_prepend(x, lines, j + 1);
            let end = if c < lines.len() {
                c + 1
            } else {
                lines.len() as int
            };
            let end2 = if c + 1 < lines2.len() {
                c + 2
            } else {
                lines2.len() as int
            };
            assert(end2 == end + 1);
            assert(lines2.subrange(j + 1, end + 1) =~= lines.subrange(j, end));
            lemma_chunks_prepend(x, lines, end);
            assert(chunks_from(lines2, j + 1) =~= chunks_from(lines, j).map_values(f));
        } else if is_heading(l) {
            lemma_chunks_prepend(x, lines, j + 1);
            assert(chunks_from(lines2, j + 1) =~= chunks_from(lines, j).map_values(f));
        } else if is_bullet(l) {
            lemma_chunks_prepend(x, lines, j + 1);
            assert(chunks_from(lines2, j + 1) =~= chunks_from(lines, j).map_values(f));
        } else if !is_blank(l) {
            let e = para_end(lines, j + 1);
            lemma_para_end(lines, j + 1);
            lemma_para_end_prepend(x, lines, j + 1);
            assert(lines2.subrange(j + 1, e + 1) =~= lines.subrange(j, e));
            let next = if e < lines.len() && is_blank(lines[e]) {
                e + 1
            } else {
                e
            };
            if e < lines.len() {
                assert(lines2[e + 1] == lines[e]);
            }
            lemma_chunks_prepend(x, lines, next);
            assert(chunks_from(lines2, j + 1) =~= chunks_from(lines, j).map_values(f));
        } else {
            lemma_chunks_prepend(x, lines, j + 1);
            assert(chunks_from(lines2, j + 1) =~= chunks_from(lines, j).map_values(f));
        }
    }
}

/// Prepending one line to a plain document shifts every atom down one line.
pub proof fn lemma_plain_prepend(x: Seq<char>, lines: Seq<Seq<char>>, j: int)
    requires
        0 <= j <= lines.len(),
    ensures
        plain_chunks_from(seq![x] + lines, j + 1) == plain_chunks_from(lines, j).map_values(
            |c: ChunkModel| shift_chunk(c),
        ),
    decreases lines.len() - j,
{
    let lines2 = seq![x] + lines;
    let f = |c: ChunkModel| shift_chunk(c);
    if j == lines.len() {
        assert(plain_chunks_from(lines2, j + 1) =~= plain_chunks_from(lines, j).map_values(f));
    } else {
        assert(lines2[j + 1] == lines[j]);
        lemma_plain_prepend(x, lines, j + 1);
        assert(plain_chunks_from(lines2, j + 1) =~= plain_chunks_from(lines, j).map_values(f));
    }
}

/// An empty line is blank and matches no structural rule.
pub proof fn lemma_empty_line_blank()
    ensures
        is_blank(Seq::<char>::empty()),
        !is_fence(Seq::<char>::empty()),
        !is_heading(Seq::<char>::empty()),
        !is_bullet(Seq::<char>::empty()),
{
}

/// The lines of a document with one newline prepended: one empty line,
/// then the lines of the document.
pub proof fn lemma_split_lines_prepend_newline(s: Seq<char>)
    ensures
        split_lines_spec(seq!['\n'] + s) == seq![Seq::<char>::empty()] + split_lines_spec(s),
{
    let s2 = seq!['\n'] + s;
    assert(s2[0] == '\n');
    assert(first_newline(s2) == 0);
    assert(s2.take(0) =~= Seq::<char>::empty());
    assert(s2.skip(1) =~= s);
}

/// Inserting one leading blank line into a structured document shifts every
/// atom down one line and changes no text.
pub proof fn lemma_markdown_chunks_shift(s: Seq<char>)
    ensures
        markdown_chunks(seq!['\n'] + s) == markdown_chunks(s).map_values(
            |c: ChunkModel| shift_chunk(c),
        ),
{
    lemma_split_lines_prepend_newline(s);
    let lines = split_lines_spec(s);
    let lines2 = seq![Seq::<char>::empty()] + lines;
    lemma_empty_line_blank();
    assert(lines2[0] == Seq::<char>::empty());
    if lines2.len() > 0 {
        assert(chunks_from(lines2, 0) == chunks_from(lines2, 1));
    }
    lemma_chunks_prepend(Seq::empty(), lines, 0);
}

/// Inserting one leading blank line into a plain document shifts every atom
/// down one line and changes no text.
pub proof fn lemma_plain_chunks_shift(s: Seq<char>)
    ensures
        plain_chunks(seq!['\n'] + s) == plain_chunks(s).map_values(
            |c: ChunkModel| shift_chunk(c),
        ),
{
    lemma_split_lines_prepend_newline(s);
    let lines = split_lines_spec(s);
    let lines2 = seq![Seq::<char>::empty()] + lines;
    lemma_empty_line_blank();
    assert(lines2[0] == Seq::<char>::empty());
    if lines2.len() > 0 {
        assert(plain_chunks_from(lines2, 0) == plain_chunks_from(lines2, 1));
    }
    lemma_plain_prepend(Seq::empty(), lines, 0);
}

/// A document has no more lines than characters.
pub proof fn lemma_split_lines_count(s: Seq<char>)
    ensures
        split_lines_spec(s).len() <= s.len(),
    decreases s.len(),
{
    if s.len() > 0 {
        lemma_first_newline(s);
        let k = first_newline(s);
        if k < s.len() {
            lemma_split_lines_count(s.skip(k + 1));
        }
    }
}

/// Split a plain document into one atom per non-blank line, trimmed, with
/// the 1-based line number as both ends of the span.
pub fn chunk_plain(content: &str) -> (r: Vec<Chunk>)
    requires
        content@.len() + 1 <= u32::MAX,
    ensures
        chunk_views(r@) == plain_chunks(content@),
{
    let v = chars_of(content);
    let lines = split_lines(&v);
    let ghost lviews = seq_views(lines@);
    proof {
        lemma_split_lines_count(content@);
    }
    let mut r: Vec<Chunk> = Vec::new();
    let mut i: usize = 0;
    assert(chunk_views(r@) =~= Seq::<ChunkModel>::empty());
    while i < lines.len()
        invariant
            i <= lines@.len(),
            lviews == seq_views(lines@),
            lviews.len() + 1 <= u32::MAX,
            plain_chunks_from(lviews, 0) == chunk_views(r@) + plain_chunks_from(lviews, i as int),
        decreases lines@.len() - i,
    {
        let t = trim_chars(&lines[i]);
        assert(lviews[i as int] == lines@[i as int]@);
        if t.len() > 0 {
            let ghost old_cs = chunk_views(r@);
            let c = Chunk {
                line_start: (i as u32) + 1,
                line_end: (i as u32) + 1,
                kind: AtomKind::Line,
                text: string_from_chars(&t),
            };
            r.push(c);
            proof {
                assert(chunk_views(r@) =~= old_cs.push(r@.last()@));
                assert(old_cs.push(r@.last()@) =~= old_cs + seq![r@.last()@]);
            }
        }
        i = i + 1;
    }
    assert(plain_chunks_from(lviews, lines@.len() as int) =~= Seq::<ChunkModel>::empty());
    assert(chunk_views(r@) + plain_chunks_from(lviews, lines@.len() as int) =~= chunk_views(r@));
    r
}

/// Whether `l` opens or closes a code fence.
fn is_fence_line(l: &Vec<char>) -> (r: bool)
    ensures
        r == is_fence(l@),
{
    l.len() >= 3 && l[0] == '`' && l[1] == '`' && l[2] == '`'
}

/// Whether `l` is a heading line.
fn is_heading_line(l: &Vec<char>) -> (r: bool)
    ensures
        r == is_heading(l@),
{
    l.len() >= 1 && l[0] == '#'
}

/// Whether `l` is a top-level bullet line.
fn is_bullet_line(l: &Vec<char>) -> (r: bool)
    ensures
        r == is_bullet(l@),
{
    let t = trim_start_chars(l);
    t.len() >= 2 && (t[0] == '-' || t[0] == '*') && t[1] == ' '
}

/// Whether `l` holds only space characters, or nothing.
fn is_blank_line(l: &Vec<char>) -> (r: bool)
    ensures
        r == is_blank(l@),
{
    let t = trim_chars(l);
    t.len() == 0
}

/// Length of the leading run of `#` characters of `l`.
fn hash_run_exec(l: &Vec<char>) -> (h: usize)
    ensures
        h == hash_run(l@),
        h <= l@.len(),
{
    let mut h: usize = 0;
    assert(l@.skip(0) =~= l@);
    loop
        invariant
            h <= l@.len(),
            hash_run(l@) == h + hash_run(l@.skip(h as int)),
        ensures
            h <= l@.len(),
            hash_run(l@) == h,
        decreases l@.len() - h,
    {
        if h == l.len() {
            assert(l@.skip(h as int) =~= Seq::<char>::empty());
            break;
        }
        assert(l@.skip(h as int)[0] == l@[h as int]);
        if l[h] != '#' {
            break;
        }
        assert(l@.skip(h as int).drop_first() =~= l@.skip(h + 1));
        h = h + 1;
    }
    h
}

/// Index of the first fence line at or after `j`.
fn scan_fence_close(lines: &Vec<Vec<char>>, j: usize) -> (c: usize)
    requires
        j <= lines@.len(),
    ensures
        j <= c <= lines@.len(),
        c == fence_close(seq_views(lines@), j as int),
        c < lines@.len() ==> is_fence(seq_views(lines@)[c as int]),
{
    let ghost lv = seq_views(lines@);
    let mut k = j;
    loop
        invariant
            j <= k <= lines@.len(),
            lv == seq_views(lines@),
            fence_close(lv, j as int) == fence_close(lv, k as int),
        ensures
            j <= k <= lines@.len(),
            fence_close(lv, j as int) == k,
            k < lines@.len() ==> is_fence(lv[k as int]),
        decreases lines@.len() - k,
    {
        if k == lines.len() {
            break;
        }
        assert(lv[k as int] == lines@[k as int]@);
        if is_fence_line(&lines[k]) {
            break;
        }
        k = k + 1;
    }
    k
}

/// Index of the first paragraph-breaking line at or after `j`.
fn scan_para_end(lines: &Vec<Vec<char>>, j: usize) -> (e: usize)
    requires
        j <= lines@.len(),
    ensures
        j <= e <= lines@.len(),
        e == para_end(seq_views(lines@), j as int),
        e < lines@.len() ==> breaks_para(seq_views(lines@)[e as int]),
        forall|k: int| j <= k < e ==> !breaks_para(seq_views(lines@)[k]),
    decreases lines@.len() - j,
{
    let ghost lv = seq_views(lines@);
    let mut k = j;
    loop
        invariant
            j <= k <= lines@.len(),
            lv == seq_views(lines@),
            para_end(lv, j as int) == para_end(lv, k as int),
            forall|m: int| j <= m < k ==> !breaks_para(lv[m]),
        ensures
            j <= k <= lines@.len(),
            para_end(lv, j as int) == k,
            k < lines@.len() ==> breaks_para(lv[k as int]),
            forall|m: int| j <= m < k ==> !breaks_para(lv[m]),
        decreases lines@.len() - k,
    {
        if k == lines.len() {
            break;
        }
        assert(lv[k as int] == lines@[k as int]@);
        let l = &lines[k];
        if is_blank_line(l) || is_fence_line(l) || is_heading_line(l) || is_bullet_line(l) {
            break;
        }
        k = k + 1;
    }
    k
}

/// Split a structured document into chunks following the priority rules:
/// code fence, heading, bullet, paragraph; blank lines are skipped and
/// empty-text atoms are dropped.
pub fn chunk_markdown(content: &str) -> (r: Vec<Chunk>)
    requires
        content@.len() + 1 <= u32::MAX,
    ensures
        chunk_views(r@) == markdown_chunks(content@),
{
    let v = chars_of(content);
    let lines = split_lines(&v);
    let ghost lviews = seq_views(lines@);
    proof {
        lemma_split_lines_count(content@);
    }
    let mut r: Vec<Chunk> = Vec::new();
    let mut i: usize = 0;
    assert(chunk_views(r@) =~= Seq::<ChunkModel>::empty());
    while i < lines.len()
        invariant
            i <= lines@.len(),
            lviews == seq_views(lines@),
            lviews.len() + 1 <= u32::MAX,
            chunks_from(lviews, 0) == chunk_views(r@) + chunks_from(lviews, i as int),
        decreases lines@.len() - i,
    {
        let ghost pre = chunk_views(r@);
        assert(lviews[i as int] == lines@[i as int]@);
        if is_fence_line(&lines[i]) {
            let c = scan_fence_close(&lines, i + 1);
            let end = if c < lines.len() {
                c + 1
            } else {
                lines.len()
            };
            let mut parts: Vec<Vec<char>> = Vec::new();
            let mut k = i;
            assert(seq_views(parts@) =~= lviews.subrange(i as int, i as int));
            while k < end
                invariant
                    i <= k <= end <= lines@.len(),
                    lviews == seq_views(lines@),
                    seq_views(parts@) == lviews.subrange(i as int, k as int),
                decreases end - k,
            {
                let ghost old_ps = seq_views(parts@);
                let part = subrange_chars(&lines[k], 0, lines[k].len());
                assert(part@ =~= lines@[k as int]@);
                parts.push(part);
                proof {
                    assert(seq_views(parts@) =~= old_ps.push(lviews[k as int]));
                    assert(lviews.subrange(i as int, k + 1) =~= lviews.subrange(
                        i as int,
                        k as int,
                    ).push(lviews[k as int]));
                }
                k = k + 1;
            }
            let joined = join_char(&parts, '\n');
            let text = trim_chars(&joined);
            let c = Chunk {
                line_start: (i as u32) + 1,
                line_end: end as u32,
                kind: AtomKind::CodeBlock,
                text: string_from_chars(&text),
            };
            r.push(c);
            proof {
                assert(chunk_views(r@) =~= pre.push(r@.last()@));
                assert(chunks_from(lviews, 0) =~= chunk_views(r@) + chunks_from(
                    lviews,
                    end as int,
                ));
            }
            i = end;
        } else if is_heading_line(&lines[i]) {
            let h = hash_run_exec(&lines[i]);
            let after = subrange_chars(&lines[i], h, lines[i].len());
            assert(after@ =~= lviews[i as int].skip(hash_run(lviews[i as int])));
            let text = trim_chars(&after);
            if text.len() > 0 {
                let c = Chunk {
                    line_start: (i as u32) + 1,
                    line_end: (i as u32) + 1,
                    kind: AtomKind::Heading,
                    text: string_from_chars(&text),
                };
                r.push(c);
                proof {
                    assert(chunk_views(r@) =~= pre.push(r@.last()@));
                    assert(chunks_from(lviews, 0) =~= chunk_views(r@) + chunks_from(
                        lviews,
                        i + 1,
                    ));
                }
            }
            i = i + 1;
        } else if is_bullet_line(&lines[i]) {
            let t = trim_start_chars(&lines[i]);
            let after = subrange_chars(&t, 2, t.len());
            assert(after@ =~= trim_start_spec(lviews[i as int]).skip(2));
            let text = trim_chars(&after);
            if text.len() > 0 {
                let c = Chunk {
                    line_start: (i as u32) + 1,
                    line_end: (i as u32) + 1,
                    kind: AtomKind::Bullet,
                    text: string_from_chars(&text),
                };
                r.push(c);
                proof {
                    assert(chunk_views(r@) =~= pre.push(r@.last()@));
                    assert(chunks_from(lviews, 0) =~= chunk_views(r@) + chunks_from(
                        lviews,
                        i + 1,
                    ));
                }
            }
            i = i + 1;
        } else if !is_blank_line(&lines[i]) {
            let e = scan_para_end(&lines, i + 1);
            let mut parts: Vec<Vec<char>> = Vec::new();
            let mut k = i;
            assert(seq_views(parts@) =~= lviews.subrange(i as int, i as int).map_values(
                |p: Seq<char>| trim_spec(p),
            ));
            while k < e
                invariant
                    i <= k <= e <= lines@.len(),
                    lviews == seq_views(lines@),
                    seq_views(parts@) == lviews.subrange(i as int, k as int).map_values(
                        |p: Seq<char>| trim_spec(p),
                    ),
                decreases e - k,
            {
                let ghost old_ps = seq_views(parts@);
                let part = trim_chars(&lines[k]);
                assert(part@ == trim_spec(lviews[k as int]));
                parts.push(part);
                proof {
                    assert(seq_views(parts@) =~= old_ps.push(part@));
                    assert(lviews.subrange(i as int, k + 1) =~= lviews.subrange(
                        i as int,
                        k as int,
                    ).push(lviews[k as int]));
                    assert(lviews.subrange(i as int, k + 1).map_values(
                        |p: Seq<char>| trim_spec(p),
                    ) =~= lviews.subrange(i as int, k as int).map_values(
                        |p: Seq<char>| trim_spec(p),
                    ).push(trim_spec(lviews[k as int])));
                }
                k = k + 1;
            }
            let joined = join_char(&parts, ' ');
            let text = trim_chars(&joined);
            let next = if e < lines.len() {
                assert(lviews[e as int] == lines@[e as int]@);
                if is_blank_line(&lines[e]) {
                    e + 1
                } else {
                    e
                }
            } else {
                e
            };
            if text.len() > 0 {
                let c = Chunk {
                    line_start: (i as u32) + 1,
                    line_end: e as u32,
                    kind: AtomKind::Paragraph,
                    text: string_from_chars(&text),
                };
                r.push(c);
                proof {
                    assert(chunk_views(r@) =~= pre.push(r@.last()@));
                    assert(chunks_from(lviews, 0) =~= chunk_views(r@) + chunks_from(
                        lviews,
                        next as int,
                    ));
                }
            }
            i = next;
        } else {
            i = i + 1;
        }
    }
    assert(chunks_from(lviews, lines@.len() as int) =~= Seq::<ChunkModel>::empty());
    assert(chunk_views(r@) + chunks_from(lviews, lines@.len() as int) =~= chunk_views(r@));
    r
}

} // verus!
