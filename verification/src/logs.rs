//! The append-only operational logs (scratch and agent log) and the read
//! side of the atom log: entry shapes and the pure formatting applied when
//! reading them back.

use vstd::prelude::*;
use vstd::string::StringExecFns;
use crate::text::{
    chars_of, contains_chars, contains_sub, join_char, join_with, seq_views, split_lines,
    split_lines_spec, string_from_chars, trim_chars, trim_spec,
};

verus! {

/// One line of the agent log.
pub struct AgentLogEntry {
    pub ts: String,
    pub actor: String,
    pub kind: String,
    pub text: String,
}

/// One line of the scratch log.
pub struct ScratchEntry {
    pub ts: String,
    pub actor: String,
    pub kind: String,
    pub text: String,
}

/// The non-blank lines of a log, in order.
pub open spec fn log_lines(content: Seq<char>) -> Seq<Seq<char>> {
    split_lines_spec(content).filter(|l: Seq<char>| trim_spec(l).len() > 0)
}

/// The first `n` of the given lines, or all of them.
pub open spec fn cut_lines(ls: Seq<Seq<char>>, max: Option<usize>) -> Seq<Seq<char>> {
    match max {
        Some(n) => if n <= ls.len() {
            ls.take(n as int)
        } else {
            ls
        },
        None => ls,
    }
}

/// What a log read returns: the non-blank lines, possibly limited, joined
/// with newlines, with one trailing newline unless nothing is left.
pub open spec fn log_excerpt_spec(content: Seq<char>, max: Option<usize>) -> Seq<char> {
    let cut = cut_lines(log_lines(content), max);
    if cut.len() == 0 {
        Seq::empty()
    } else {
        join_with(cut, seq!['\n']) + seq!['\n']
    }
}

/// The non-blank lines of a log file's content, each kept verbatim.
fn non_blank_lines(content: &str) -> (r: Vec<Vec<char>>)
    ensures
        seq_views(r@) == log_lines(content@),
{
    let ghost f = |l: Seq<char>| trim_spec(l).len() > 0;
    let v = chars_of(content);
    let lines = split_lines(&v);
    let ghost sv = seq_views(lines@);
    let mut kept: Vec<Vec<char>> = Vec::new();
    let mut i: usize = 0;
    assert(sv.take(0) =~= Seq::<Seq<char>>::empty());
    assert(seq_views(kept@) =~= Seq::<Seq<char>>::empty().filter(f));
    while i < lines.len()
        invariant
            i <= lines@.len(),
            sv == seq_views(lines@),
            f == (|l: Seq<char>| trim_spec(l).len() > 0),
            seq_views(kept@) == sv.take(i as int).filter(f),
        decreases lines@.len() - i,
    {
        let ghost pre = seq_views(kept@);
        let t = trim_chars(&lines[i]);
        assert(lines@[i as int]@ == sv[i as int]);
        if t.len() > 0 {
            let copy = crate::text::subrange_chars(&lines[i], 0, lines[i].len());
            assert(copy@ =~= sv[i as int]);
            kept.push(copy);
            proof {
                assert(seq_views(kept@) =~= pre.push(sv[i as int]));
            }
        }
        proof {
            assert(sv.take(i + 1).drop_last() =~= sv.take(i as int));
            assert(sv.take(i + 1).last() == sv[i as int]);
            reveal_with_fuel(Seq::filter, 2);
            assert(sv.take(i + 1).filter(f) == if f(sv[i as int]) {
                sv.take(i as int).filter(f).push(sv[i as int])
            } else {
                sv.take(i as int).filter(f)
            });
        }
        i = i + 1;
    }
    assert(sv.take(lines@.len() as int) =~= sv);
    kept
}

/// Format a log file's content for reading back: non-blank lines, up to
/// `max` of them, joined with newlines and newline-terminated.
pub fn log_excerpt(content: &str, max: Option<usize>) -> (r: String)
    ensures
        r@ == log_excerpt_spec(content@, max),
{
    let mut kept = non_blank_lines(content);
    match max {
        Some(n) => {
            kept.truncate(n);
            proof {
                if n <= log_lines(content@).len() {
                    assert(seq_views(kept@) =~= log_lines(content@).take(n as int));
                }
            }
        },
        None => {
        },
    }
    assert(seq_views(kept@) == cut_lines(log_lines(content@), max));
    if kept.len() == 0 {
        let r = String::new();
        assert(r@ =~= log_excerpt_spec(content@, max));
        r
    } else {
        let mut joined = join_char(&kept, '\n');
        joined.push('\n');
        assert(joined@ =~= join_with(seq_views(kept@), seq!['\n']) + seq!['\n']);
        string_from_chars(&joined)
    }
}

/// The lines the atom-log reader returns: each line trimmed, blank lines
/// dropped, optionally only those containing `scope`, and at most `max`.
pub open spec fn derived_lines_spec(
    content: Seq<char>,
    scope: Option<Seq<char>>,
    max: Option<usize>,
) -> Seq<Seq<char>> {
    let trimmed = split_lines_spec(content).map_values(|l: Seq<char>| trim_spec(l)).filter(
        |l: Seq<char>| l.len() > 0,
    );
    let scoped = match scope {
        Some(q) => trimmed.filter(|l: Seq<char>| contains_sub(l, q)),
        None => trimmed,
    };
    cut_lines(scoped, max)
}

/// Read the atom log back: trimmed non-blank lines, filtered to those
/// containing `scope` when one is given, limited to `max` when given.
pub fn filter_derived_lines(content: &str, scope: Option<&str>, max: Option<usize>) -> (r: Vec<
    String,
>)
    ensures
        crate::text::str_views(r@) == derived_lines_spec(
            content@,
            match scope {
                Some(q) => Some(q@),
                None => None,
            },
            max,
        ),
{
    let ghost fnb = |l: Seq<char>| l.len() > 0;
    let v = chars_of(content);
    let lines = split_lines(&v);
    let ghost sv = seq_views(lines@);
    let ghost tv = sv.map_values(|l: Seq<char>| trim_spec(l));
    let mut trimmed: Vec<Vec<char>> = Vec::new();
    let mut i: usize = 0;
    assert(tv.take(0) =~= Seq::<Seq<char>>::empty());
    assert(seq_views(trimmed@) =~= Seq::<Seq<char>>::empty().filter(fnb));
    while i < lines.len()
        invariant
            i <= lines@.len(),
            sv == seq_views(lines@),
            tv == sv.map_values(|l: Seq<char>| trim_spec(l)),
            fnb == (|l: Seq<char>| l.len() > 0),
            seq_views(trimmed@) == tv.take(i as int).filter(fnb),
        decreases lines@.len() - i,
    {
        let ghost pre = seq_views(trimmed@);
        let t = trim_chars(&lines[i]);
        assert(lines@[i as int]@ == sv[i as int]);
        assert(t@ == tv[i as int]);
        if t.len() > 0 {
            trimmed.push(t);
            proof {
                assert(seq_views(trimmed@) =~= pre.push(tv[i as int]));
            }
        }
        proof {
            assert(tv.take(i + 1).drop_last() =~= tv.take(i as int));
            assert(tv.take(i + 1).last() == tv[i as int]);
            reveal_with_fuel(Seq::filter, 2);
            assert(tv.take(i + 1).filter(fnb) == if fnb(tv[i as int]) {
                tv.take(i as int).filter(fnb).push(tv[i as int])
            } else {
                tv.take(i as int).filter(fnb)
            });
        }
        i = i + 1;
    }
    assert(tv.take(lines@.len() as int) =~= tv);
    let ghost base = tv.filter(fnb);
    let mut scoped: Vec<Vec<char>> = trimmed;
    match scope {
        Some(q) => {
            let ghost fq = |l: Seq<char>| contains_sub(l, q@);
            let qv = chars_of(q);
            let mut kept: Vec<Vec<char>> = Vec::new();
            let mut j: usize = 0;
            assert(base.take(0) =~= Seq::<Seq<char>>::empty());
            assert(seq_views(kept@) =~= Seq::<Seq<char>>::empty().filter(fq));
            while j < scoped.len()
                invariant
                    j <= scoped@.len(),
                    seq_views(scoped@) == base,
                    qv@ == q@,
                    fq == (|l: Seq<char>| contains_sub(l, q@)),
                    seq_views(kept@) == base.take(j as int).filter(fq),
                decreases scoped@.len() - j,
            {
                let ghost pre = seq_views(kept@);
                assert(scoped@[j as int]@ == base[j as int]);
                if contains_chars(&scoped[j], &qv) {
                    let copy = crate::text::subrange_chars(&scoped[j], 0, scoped[j].len());
                    assert(copy@ =~= base[j as int]);
                    kept.push(copy);
                    proof {
                        assert(seq_views(kept@) =~= pre.push(base[j as int]));
                    }
                }
                proof {
                    assert(base.take(j + 1).drop_last() =~= base.take(j as int));
                    assert(base.take(j + 1).last() == base[j as int]);
                    reveal_with_fuel(Seq::filter, 2);
                    assert(base.take(j + 1).filter(fq) == if fq(base[j as int]) {
                        base.take(j as int).filter(fq).push(base[j as int])
                    } else {
                        base.take(j as int).filter(fq)
                    });
                }
                j = j + 1;
            }
            assert(base.take(scoped@.len() as int) =~= base);
            scoped = kept;
        },
        None => {
        },
    }
    match max {
        Some(n) => {
            let ghost pre = seq_views(scoped@);
            scoped.truncate(n);
            proof {
                if n <= pre.len() {
                    assert(seq_views(scoped@) =~= pre.take(n as int));
                }
            }
        },
        None => {
        },
    }
    let mut r: Vec<String> = Vec::new();
    let mut k: usize = 0;
    assert(crate::text::str_views(r@) =~= seq_views(scoped@).take(0));
    while k < scoped.len()
        invariant
            k <= scoped@.len(),
            crate::text::str_views(r@) == seq_views(scoped@).take(k as int),
        decreases scoped@.len() - k,
    {
        let ghost pre = crate::text::str_views(r@);
        let s = string_from_chars(&scoped[k]);
        r.push(s);
        proof {
            assert(crate::text::str_views(r@) =~= pre.push(seq_views(scoped@)[k as int]));
            assert(seq_views(scoped@).take(k + 1) =~= seq_views(scoped@).take(k as int).push(
                seq_views(scoped@)[k as int],
            ));
        }
        k = k + 1;
    }
    assert(seq_views(scoped@).take(scoped@.len() as int) =~= seq_views(scoped@));
    r
}

/// What an excerpt of a notes file holds: the whole content, or its first
/// `n` lines joined with newlines.
pub open spec fn excerpt_spec(content: Seq<char>, max_lines: Option<usize>) -> Seq<char> {
    match max_lines {
        Some(n) => join_with(cut_lines(split_lines_spec(content), Some(n)), seq!['\n']),
        None => content,
    }
}

/// Excerpt a notes file: unchanged without a limit, else its first
/// `max_lines` lines joined with newlines.
pub fn excerpt_lines(content: &str, max_lines: Option<usize>) -> (r: String)
    ensures
        r@ == excerpt_spec(content@, max_lines),
{
    match max_lines {
        None => String::from_str(content),
        Some(n) => {
            let v = chars_of(content);
            let mut lines = split_lines(&v);
            let ghost pre = seq_views(lines@);
            lines.truncate(n);
            proof {
                if n <= pre.len() {
                    assert(seq_views(lines@) =~= pre.take(n as int));
                }
            }
            assert(seq_views(lines@) == cut_lines(split_lines_spec(content@), Some(n)));
            let joined = join_char(&lines, '\n');
            string_from_chars(&joined)
        },
    }
}

/// One discovered document as the raw reader prints it: the path, a
/// separator line, and the content, newline-terminated.
pub open spec fn raw_section(path: Seq<char>, content: Seq<char>) -> Seq<char> {
    path + "\n---\n"@ + content + (if content.len() > 0 && content.last() == '\n' {
        Seq::<char>::empty()
    } else {
        seq!['\n']
    })
}

/// The concatenated sections of all discovered documents, in order.
pub open spec fn raw_sections(paths: Seq<Seq<char>>, contents: Seq<Seq<char>>, i: int) -> Seq<
    char,
>
    decreases paths.len() - i,
{
    if !(0 <= i < paths.len() && i < contents.len()) {
        Seq::empty()
    } else {
        raw_section(paths[i], contents[i]) + raw_sections(paths, contents, i + 1)
    }
}

/// Render each document as its path, a separator, and its content.
pub fn render_raw_content(paths: &Vec<String>, contents: &Vec<String>) -> (r: String)
    requires
        paths@.len() == contents@.len(),
    ensures
        r@ == raw_sections(
            crate::text::str_views(paths@),
            crate::text::str_views(contents@),
            0,
        ),
{
    let ghost pv = crate::text::str_views(paths@);
    let ghost cv = crate::text::str_views(contents@);
    let mut r = String::new();
    let mut i: usize = 0;
    assert(r@ + raw_sections(pv, cv, 0) =~= raw_sections(pv, cv, 0));
    while i < paths.len()
        invariant
            i <= paths@.len(),
            paths@.len() == contents@.len(),
            pv == crate::text::str_views(paths@),
            cv == crate::text::str_views(contents@),
            raw_sections(pv, cv, 0) == r@ + raw_sections(pv, cv, i as int),
        decreases paths@.len() - i,
    {
        let ghost pre = r@;
        r.append(paths[i].as_str());
        r.append("\n---\n");
        r.append(contents[i].as_str());
        let c = &contents[i];
        let cl = c.as_str().unicode_len();
        let ends_nl = if cl > 0 {
            c.as_str().get_char(cl - 1) == '\n'
        } else {
            false
        };
        if !ends_nl {
            r.append("\n");
            proof {
                reveal_strlit("\n");
                assert("\n"@ =~= seq!['\n']);
            }
        }
        proof {
            assert(cv[i as int].len() > 0 ==> cv[i as int].last() == cv[i as int][cv[
                i as int
            ].len() - 1]);
            assert(r@ =~= pre + raw_section(pv[i as int], cv[i as int]));
            assert(raw_sections(pv, cv, i as int) == raw_section(pv[i as int], cv[i as int])
                + raw_sections(pv, cv, i + 1));
            assert(r@ + raw_sections(pv, cv, i + 1) =~= pre + raw_sections(pv, cv, i as int));
        }
        i = i + 1;
    }
    assert(raw_sections(pv, cv, paths@.len() as int) =~= Seq::<char>::empty());
    assert(r@ + raw_sections(pv, cv, paths@.len() as int) =~= r@);
    r
}

} // verus!
