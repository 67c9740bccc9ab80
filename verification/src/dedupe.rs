//! Dedupe index: decides, for each candidate atom, whether it may be
//! appended to the atom log. Atoms are identified exactly by their
//! provenance key, and — when semantic dedupe is enabled — coarsely by a
//! normalized-text fingerprint that absorbs line-number drift.

use vstd::prelude::*;
use crate::chunk::{Chunk, ChunkModel, chunk_views, chunk_markdown, chunk_plain, markdown_chunks,
    plain_chunks, shift_chunk, lemma_markdown_chunks_shift, lemma_plain_chunks_shift,
    lemma_chunks_spans, lemma_plain_spans};
use crate::text::split_lines_spec;
use crate::text::{join_with, lower_of, str_eq, string_from_chars, chars_of};
use crate::tokens::split_words;

verus! {

/// Exact identity of an atom within its source document.
pub struct Provenance {
    pub source_file: String,
    pub line_start: u32,
    pub line_end: u32,
}

/// Model of a provenance key.
pub ghost struct ProvKeyModel {
    pub source: Seq<char>,
    pub line_start: int,
    pub line_end: int,
}

impl View for Provenance {
    type V = ProvKeyModel;

    open spec fn view(&self) -> ProvKeyModel {
        ProvKeyModel {
            source: self.source_file@,
            line_start: self.line_start as int,
            line_end: self.line_end as int,
        }
    }
}

/// Drift-tolerant identity of an atom: its source and normalized text.
pub struct SemanticKey {
    pub source: String,
    pub norm: String,
}

/// Model of a semantic key.
pub ghost struct SemKeyModel {
    pub source: Seq<char>,
    pub norm: Seq<char>,
}

impl View for SemanticKey {
    type V = SemKeyModel;

    open spec fn view(&self) -> SemKeyModel {
        SemKeyModel { source: self.source@, norm: self.norm@ }
    }
}

/// One parsed line of the atom log, fields optional as on disk.
pub struct LogRecord {
    pub source: Option<String>,
    pub text: Option<String>,
    pub provenance: Option<Provenance>,
}

/// Model of a parsed log line.
pub ghost struct LogRecordModel {
    pub source: Option<Seq<char>>,
    pub text: Option<Seq<char>>,
    pub provenance: Option<ProvKeyModel>,
}

impl View for LogRecord {
    type V = LogRecordModel;

    open spec fn view(&self) -> LogRecordModel {
        LogRecordModel {
            source: match self.source {
                Some(ref s) => Some(s@),
                None => None,
            },
            text: match self.text {
                Some(ref t) => Some(t@),
                None => None,
            },
            provenance: match self.provenance {
                Some(ref p) => Some(p@),
                None => None,
            },
        }
    }
}

/// The models of a list of chunks is already given by `chunk_views`; this
/// gives the models of a list of log records.
pub open spec fn record_views(s: Seq<LogRecord>) -> Seq<LogRecordModel> {
    s.map_values(|r: LogRecord| r@)
}

/// The normalized text fingerprint: lowercase, split on non-word
/// boundaries, empty tokens dropped, rejoined with single spaces.
pub open spec fn norm_text(s: Seq<char>) -> Seq<char> {
    join_with(split_words(lower_of(s)), seq![' '])
}

/// The semantic key a log record contributes to the index.
pub open spec fn record_sem_key(r: LogRecordModel) -> SemKeyModel {
    let source = match r.provenance {
        Some(p) => match r.source {
            Some(s) => s,
            None => p.source,
        },
        None => match r.source {
            Some(s) => s,
            None => "?"@,
        },
    };
    let text = match r.text {
        Some(t) => t,
        None => Seq::empty(),
    };
    SemKeyModel { source, norm: norm_text(text) }
}

/// The exact keys contributed by a list of log records: one per record
/// that carries a provenance.
pub open spec fn exact_keys_of(rs: Seq<LogRecordModel>) -> Seq<ProvKeyModel>
    decreases rs.len(),
{
    if rs.len() == 0 {
        Seq::empty()
    } else {
        let rest = exact_keys_of(rs.drop_last());
        match rs.last().provenance {
            Some(p) => rest.push(p),
            None => rest,
        }
    }
}

/// Model of the dedupe index.
pub ghost struct IndexModel {
    pub exact: Seq<ProvKeyModel>,
    pub semantic: Seq<SemKeyModel>,
    pub semantic_enabled: bool,
}

/// In-memory dedupe index for one ingestion batch.
pub struct DedupeIndex {
    pub exact: Vec<Provenance>,
    pub semantic: Vec<SemanticKey>,
    pub semantic_enabled: bool,
}

impl View for DedupeIndex {
    type V = IndexModel;

    open spec fn view(&self) -> IndexModel {
        IndexModel {
            exact: self.exact@.map_values(|p: Provenance| p@),
            semantic: self.semantic@.map_values(|k: SemanticKey| k@),
            semantic_enabled: self.semantic_enabled,
        }
    }
}

/// The index already holds this exact key.
pub open spec fn has_exact(m: IndexModel, k: ProvKeyModel) -> bool {
    m.exact.contains(k)
}

/// The index already holds this semantic key.
pub open spec fn has_sem(m: IndexModel, k: SemKeyModel) -> bool {
    m.semantic.contains(k)
}

/// A candidate with these keys is admitted: its exact key is new, and —
/// when semantic dedupe is on — its semantic key is new as well.
pub open spec fn admit_decision(m: IndexModel, k: ProvKeyModel, sk: SemKeyModel) -> bool {
    !has_exact(m, k) && !(m.semantic_enabled && has_sem(m, sk))
}

/// The index after committing a candidate with these keys.
pub open spec fn admit_update(m: IndexModel, k: ProvKeyModel, sk: SemKeyModel) -> IndexModel {
    IndexModel {
        exact: m.exact.push(k),
        semantic: if m.semantic_enabled {
            m.semantic.push(sk)
        } else {
            m.semantic
        },
        semantic_enabled: m.semantic_enabled,
    }
}

impl DedupeIndex {
    /// A fresh, empty index.
    pub fn new(semantic_enabled: bool) -> (r: DedupeIndex)
        ensures
            r@.exact.len() == 0,
            r@.semantic.len() == 0,
            r@.semantic_enabled == semantic_enabled,
    {
        let r = DedupeIndex { exact: Vec::new(), semantic: Vec::new(), semantic_enabled };
        proof {
            assert(r@.exact =~= Seq::<ProvKeyModel>::empty());
            assert(r@.semantic =~= Seq::<SemKeyModel>::empty());
        }
        r
    }

    /// Whether the given exact key is already present.
    pub fn contains_exact(&self, source: &str, line_start: u32, line_end: u32) -> (r: bool)
        ensures
            r == has_exact(
                self@,
                ProvKeyModel {
                    source: source@,
                    line_start: line_start as int,
                    line_end: line_end as int,
                },
            ),
    {
        let ghost k = ProvKeyModel {
            source: source@,
            line_start: line_start as int,
            line_end: line_end as int,
        };
        let mut i: usize = 0;
        while i < self.exact.len()
            invariant
                i <= self.exact@.len(),
                forall|m: int| 0 <= m < i ==> self@.exact[m] != k,
                k == (ProvKeyModel {
                    source: source@,
                    line_start: line_start as int,
                    line_end: line_end as int,
                }),
            decreases self.exact@.len() - i,
        {
            let p = &self.exact[i];
            if p.line_start == line_start && p.line_end == line_end && str_eq(
                p.source_file.as_str(),
                source,
            ) {
                assert(self@.exact[i as int] == k);
                return true;
            }
            assert(self@.exact[i as int] == self.exact@[i as int]@);
            i = i + 1;
        }
        false
    }

    /// Whether the given semantic key is already present.
    pub fn contains_semantic(&self, source: &str, norm: &str) -> (r: bool)
        ensures
            r == has_sem(self@, SemKeyModel { source: source@, norm: norm@ }),
    {
        let ghost k = SemKeyModel { source: source@, norm: norm@ };
        let mut i: usize = 0;
        while i < self.semantic.len()
            invariant
                i <= self.semantic@.len(),
                forall|m: int| 0 <= m < i ==> self@.semantic[m] != k,
                k == (SemKeyModel { source: source@, norm: norm@ }),
            decreases self.semantic@.len() - i,
        {
            let s = &self.semantic[i];
            if str_eq(s.source.as_str(), source) && str_eq(s.norm.as_str(), norm) {
                assert(self@.semantic[i as int] == k);
                return true;
            }
            assert(self@.semantic[i as int] == self.semantic@[i as int]@);
            i = i + 1;
        }
        false
    }

    /// Record an exact key as committed.
    pub fn insert_exact(&mut self, source: &str, line_start: u32, line_end: u32)
        ensures
            final(self)@.exact == old(self)@.exact.push(
                ProvKeyModel {
                    source: source@,
                    line_start: line_start as int,
                    line_end: line_end as int,
                },
            ),
            final(self)@.semantic == old(self)@.semantic,
            final(self)@.semantic_enabled == old(self)@.semantic_enabled,
    {
        let ghost pre = self@.exact;
        let v = chars_of(source);
        let p = Provenance { source_file: string_from_chars(&v), line_start, line_end };
        self.exact.push(p);
        proof {
            assert(self@.exact =~= pre.push(
                ProvKeyModel {
                    source: source@,
                    line_start: line_start as int,
                    line_end: line_end as int,
                },
            ));
        }
    }

    /// Record a semantic key as committed.
    pub fn insert_semantic(&mut self, source: &str, norm: &str)
        ensures
            final(self)@.semantic == old(self)@.semantic.push(
                SemKeyModel { source: source@, norm: norm@ },
            ),
            final(self)@.exact == old(self)@.exact,
            final(self)@.semantic_enabled == old(self)@.semantic_enabled,
    {
        let ghost pre = self@.semantic;
        let sv = chars_of(source);
        let nv = chars_of(norm);
        let k = SemanticKey { source: string_from_chars(&sv), norm: string_from_chars(&nv) };
        self.semantic.push(k);
        proof {
            assert(self@.semantic =~= pre.push(SemKeyModel { source: source@, norm: norm@ }));
        }
    }

    /// Build the index for a batch from the records of the current atom
    /// log: every provenance becomes an exact key, and — when semantic
    /// dedupe is on — every record contributes its semantic key.
    pub fn from_records(records: &Vec<LogRecord>, semantic_enabled: bool) -> (r: DedupeIndex)
        ensures
            r@.exact == exact_keys_of(record_views(records@)),
            semantic_enabled ==> r@.semantic == record_views(records@).map_values(
                |m: LogRecordModel| record_sem_key(m),
            ),
            !semantic_enabled ==> r@.semantic.len() == 0,
            r@.semantic_enabled == semantic_enabled,
    {
        let ghost rviews = record_views(records@);
        let mut r = DedupeIndex::new(semantic_enabled);
        let mut i: usize = 0;
        assert(r@.exact =~= exact_keys_of(rviews.take(0)));
        assert(semantic_enabled ==> r@.semantic =~= rviews.take(0).map_values(
            |m: LogRecordModel| record_sem_key(m),
        ));
        while i < records.len()
            invariant
                i <= records@.len(),
                rviews == record_views(records@),
                r@.exact == exact_keys_of(rviews.take(i as int)),
                semantic_enabled ==> r@.semantic == rviews.take(i as int).map_values(
                    |m: LogRecordModel| record_sem_key(m),
                ),
                !semantic_enabled ==> r@.semantic.len() == 0,
                r@.semantic_enabled == semantic_enabled,
            decreases records@.len() - i,
        {
            proof {
                reveal_strlit("");
                assert(""@ =~= Seq::<char>::empty());
                assert(rviews.take(i + 1).drop_last() =~= rviews.take(i as int));
                assert(rviews.take(i + 1).last() == rviews[i as int]);
                assert(rviews[i as int] == records@[i as int]@);
            }
            let rec = &records[i];
            match &rec.provenance {
                Some(p) => {
                    r.insert_exact(p.source_file.as_str(), p.line_start, p.line_end);
                    if semantic_enabled {
                        let source: &str = match &rec.source {
                            Some(s) => s.as_str(),
                            None => p.source_file.as_str(),
                        };
                        let norm = match &rec.text {
                            Some(t) => normalized_text(t.as_str()),
                            None => normalized_text(""),
                        };
                        r.insert_semantic(source, norm.as_str());
                        assert(r@.semantic.last() == record_sem_key(rviews[i as int]));
                    }
                },
                None => {
                    if semantic_enabled {
                        let source: &str = match &rec.source {
                            Some(s) => s.as_str(),
                            None => "?",
                        };
                        let norm = match &rec.text {
                            Some(t) => normalized_text(t.as_str()),
                            None => normalized_text(""),
                        };
                        r.insert_semantic(source, norm.as_str());
                        assert(r@.semantic.last() == record_sem_key(rviews[i as int]));
                    }
                },
            }
            proof {
                if semantic_enabled {
                    assert(rviews.take(i + 1).map_values(|m: LogRecordModel| record_sem_key(m))
                        =~= rviews.take(i as int).map_values(
                        |m: LogRecordModel| record_sem_key(m),
                    ).push(record_sem_key(rviews[i as int])));
                }
            }
            i = i + 1;
        }
        assert(rviews.take(records@.len() as int) =~= rviews);
        r
    }
}

/// The exact identity key of an atom: its source document and line span.
pub fn provenance_key(source: &str, line_start: u32, line_end: u32) -> (r: Provenance)
    ensures
        r@ == (ProvKeyModel {
            source: source@,
            line_start: line_start as int,
            line_end: line_end as int,
        }),
{
    let v = chars_of(source);
    Provenance { source_file: string_from_chars(&v), line_start, line_end }
}

/// The drift-tolerant identity key of an atom: its source document and
/// normalized text.
pub fn semantic_key(source: &str, text: &str) -> (r: SemanticKey)
    ensures
        r@ == (SemKeyModel { source: source@, norm: norm_text(text@) }),
{
    let v = chars_of(source);
    SemanticKey { source: string_from_chars(&v), norm: normalized_text(text) }
}

/// The normalized text fingerprint of `text`, as a string.
pub fn normalized_text(text: &str) -> (r: String)
    ensures
        r@ == norm_text(text@),
{
    let lowered = crate::text::to_lowercase_str(text);
    let v = chars_of(lowered.as_str());
    let words = crate::tokens::split_words_exec(&v);
    let joined = crate::text::join_char(&words, ' ');
    string_from_chars(&joined)
}

/// The chunks a document yields, by format.
pub open spec fn doc_chunks(markdown: bool, content: Seq<char>) -> Seq<ChunkModel> {
    if markdown {
        markdown_chunks(content)
    } else {
        plain_chunks(content)
    }
}

/// The exact key of a chunk from the given source.
pub open spec fn chunk_key(source: Seq<char>, c: ChunkModel) -> ProvKeyModel {
    ProvKeyModel { source, line_start: c.line_start, line_end: c.line_end }
}

/// The semantic key of a chunk from the given source.
pub open spec fn chunk_sem_key(source: Seq<char>, c: ChunkModel) -> SemKeyModel {
    SemKeyModel { source, norm: norm_text(c.text) }
}

/// Which of the candidate chunks are committed, and the index afterwards:
/// candidates are taken in order; empty-text chunks are dropped; a chunk
/// whose exact key — or, with semantic dedupe on, whose semantic key — is
/// already present is skipped; a committed chunk registers its keys at
/// once, so duplicates within one batch are caught too.
pub open spec fn filter_new(chunks: Seq<ChunkModel>, source: Seq<char>, m: IndexModel) -> (
    Seq<ChunkModel>,
    IndexModel,
)
    decreases chunks.len(),
{
    if chunks.len() == 0 {
        (Seq::empty(), m)
    } else {
        let c = chunks[0];
        let rest = chunks.drop_first();
        if c.text.len() == 0 {
            filter_new(rest, source, m)
        } else {
            let k = chunk_key(source, c);
            let sk = chunk_sem_key(source, c);
            if admit_decision(m, k, sk) {
                let next = filter_new(rest, source, admit_update(m, k, sk));
                (seq![c] + next.0, next.1)
            } else {
                filter_new(rest, source, m)
            }
        }
    }
}

/// Committed keys only accumulate: filtering never removes one.
pub proof fn lemma_filter_monotone(chunks: Seq<ChunkModel>, source: Seq<char>, m: IndexModel)
    ensures
        forall|k: ProvKeyModel| has_exact(m, k) ==> has_exact(
            #[trigger] filter_new(chunks, source, m).1,
            k,
        ),
        forall|k: SemKeyModel| has_sem(m, k) ==> has_sem(filter_new(chunks, source, m).1, k),
        filter_new(chunks, source, m).1.semantic_enabled == m.semantic_enabled,
    decreases chunks.len(),
{
    broadcast use vstd::seq_lib::lemma_seq_contains_after_push;

    if chunks.len() == 0 {
    } else {
        let c = chunks[0];
        let rest = chunks.drop_first();
        if c.text.len() == 0 {
            lemma_filter_monotone(rest, source, m);
        } else {
            let k = chunk_key(source, c);
            let sk = chunk_sem_key(source, c);
            if admit_decision(m, k, sk) {
                let m2 = admit_update(m, k, sk);
                assert forall|kk: ProvKeyModel| has_exact(m, kk) implies has_exact(m2, kk) by {
                    let idx = choose|idx: int| 0 <= idx < m.exact.len() && m.exact[idx] == kk;
                    assert(m2.exact[idx] == kk);
                }
                assert forall|kk: SemKeyModel| has_sem(m, kk) implies has_sem(m2, kk) by {
                    let idx = choose|idx: int|
                        0 <= idx < m.semantic.len() && m.semantic[idx] == kk;
                    assert(m2.semantic[idx] == kk);
                }
                lemma_filter_monotone(rest, source, m2);
            } else {
                lemma_filter_monotone(rest, source, m);
            }
        }
    }
}

/// After a batch, every candidate that was considered is committed in one
/// of its two identities: its exact key is present, or — with semantic
/// dedupe on — its semantic key is.
pub proof fn lemma_filter_registers(chunks: Seq<ChunkModel>, source: Seq<char>, m: IndexModel)
    ensures
        forall|i: int|
            0 <= i < chunks.len() && chunks[i].text.len() > 0 ==> {
                let f = filter_new(chunks, source, m).1;
                has_exact(f, chunk_key(source, chunks[i])) || (m.semantic_enabled && has_sem(
                    f,
                    chunk_sem_key(source, chunks[i]),
                ))
            },
    decreases chunks.len(),
{
    broadcast use vstd::seq_lib::lemma_seq_contains_after_push;

    if chunks.len() == 0 {
    } else {
        let c = chunks[0];
        let rest = chunks.drop_first();
        let f = filter_new(chunks, source, m).1;
        assert(forall|i: int| 1 <= i < chunks.len() ==> chunks[i] == rest[i - 1]);
        if c.text.len() == 0 {
            lemma_filter_registers(rest, source, m);
        } else {
            let k = chunk_key(source, c);
            let sk = chunk_sem_key(source, c);
            if admit_decision(m, k, sk) {
                let m2 = admit_update(m, k, sk);
                lemma_filter_registers(rest, source, m2);
                lemma_filter_monotone(rest, source, m2);
                assert(has_exact(m2, k));
                assert(has_exact(f, k));
            } else {
                lemma_filter_registers(rest, source, m);
                lemma_filter_monotone(rest, source, m);
            }
        }
    }
}

/// A batch in which every candidate is already committed admits nothing
/// and leaves the index unchanged.
pub proof fn lemma_refilter_empty(chunks: Seq<ChunkModel>, source: Seq<char>, m: IndexModel)
    requires
        forall|i: int|
            0 <= i < chunks.len() && chunks[i].text.len() > 0 ==> !admit_decision(
                m,
                chunk_key(source, chunks[i]),
                #[trigger] chunk_sem_key(source, chunks[i]),
            ),
    ensures
        filter_new(chunks, source, m).0 == Seq::<ChunkModel>::empty(),
        filter_new(chunks, source, m).1 == m,
    decreases chunks.len(),
{
    if chunks.len() == 0 {
    } else {
        let rest = chunks.drop_first();
        assert(chunk_sem_key(source, chunks[0]) == chunk_sem_key(source, chunks[0]));
        assert(forall|i: int| 0 <= i < rest.len() ==> rest[i] == chunks[i + 1]);
        lemma_refilter_empty(rest, source, m);
    }
}

/// Ingesting the same document twice admits nothing the second time: after
/// the first batch every atom of the document is committed, so the second
/// batch returns no atoms and leaves the index as it was.
pub proof fn lemma_reingest_admits_nothing(
    chunks: Seq<ChunkModel>,
    source: Seq<char>,
    m: IndexModel,
)
    ensures
        filter_new(chunks, source, filter_new(chunks, source, m).1).0 == Seq::<
            ChunkModel,
        >::empty(),
        filter_new(chunks, source, filter_new(chunks, source, m).1).1 == filter_new(
            chunks,
            source,
            m,
        ).1,
{
    let m1 = filter_new(chunks, source, m).1;
    lemma_filter_registers(chunks, source, m);
    lemma_filter_monotone(chunks, source, m);
    assert forall|i: int|
        0 <= i < chunks.len() && chunks[i].text.len() > 0 implies !admit_decision(
        m1,
        chunk_key(source, chunks[i]),
        #[trigger] chunk_sem_key(source, chunks[i]),
    ) by {
        assert(m1.semantic_enabled == m.semantic_enabled);
    }
    lemma_refilter_empty(chunks, source, m1);
}

/// With semantic dedupe on, a batch whose candidates have pairwise
/// distinct keys registers the semantic key of every one of its atoms —
/// provided any atom already committed exactly was committed together
/// with its semantic key, as every batch run with semantic dedupe commits
/// them.
pub proof fn lemma_filter_registers_semantic(
    chunks: Seq<ChunkModel>,
    source: Seq<char>,
    m: IndexModel,
)
    requires
        m.semantic_enabled,
        forall|i: int|
            0 <= i < chunks.len() && chunks[i].text.len() > 0 && has_exact(
                m,
                #[trigger] chunk_key(source, chunks[i]),
            ) ==> has_sem(m, chunk_sem_key(source, chunks[i])),
        forall|i: int, j: int|
            0 <= i < j < chunks.len() && chunks[i].text.len() > 0 && chunks[j].text.len() > 0
                ==> chunk_key(source, chunks[i]) != chunk_key(source, chunks[j]),
    ensures
        forall|i: int|
            0 <= i < chunks.len() && chunks[i].text.len() > 0 ==> has_sem(
                filter_new(chunks, source, m).1,
                #[trigger] chunk_sem_key(source, chunks[i]),
            ),
    decreases chunks.len(),
{
    broadcast use vstd::seq_lib::lemma_seq_contains_after_push;

    if chunks.len() == 0 {
    } else {
        let c = chunks[0];
        let rest = chunks.drop_first();
        let f = filter_new(chunks, source, m).1;
        assert(forall|i: int| 1 <= i < chunks.len() ==> chunks[i] == rest[i - 1]);
        if c.text.len() == 0 {
            lemma_filter_registers_semantic(rest, source, m);
        } else {
            let k = chunk_key(source, c);
            let sk = chunk_sem_key(source, c);
            if admit_decision(m, k, sk) {
                let m2 = admit_update(m, k, sk);
                assert forall|i: int|
                    0 <= i < rest.len() && rest[i].text.len() > 0 && has_exact(
                    m2,
                    #[trigger] chunk_key(source, rest[i]),
                ) implies has_sem(m2, chunk_sem_key(source, rest[i])) by {
                    assert(rest[i] == chunks[i + 1]);
                    assert(chunk_key(source, chunks[i + 1]) != k);
                    let ki = chunk_key(source, rest[i]);
                    let idx = choose|idx: int|
                        0 <= idx < m2.exact.len() && m2.exact[idx] == ki;
                    assert(idx < m.exact.len());
                    assert(has_exact(m, ki));
                    assert(has_sem(m, chunk_sem_key(source, rest[i])));
                    let sidx = choose|sidx: int|
                        0 <= sidx < m.semantic.len() && m.semantic[sidx] == chunk_sem_key(
                            source,
                            rest[i],
                        );
                    assert(m2.semantic[sidx] == chunk_sem_key(source, rest[i]));
                }
                lemma_filter_registers_semantic(rest, source, m2);
                lemma_filter_monotone(rest, source, m2);
                assert(has_sem(m2, sk));
            } else {
                // whichever key blocked this candidate, its semantic key is
                // present: directly, or through the hypothesis on committed
                // exact keys
                assert(has_sem(m, sk));
                lemma_filter_registers_semantic(rest, source, m);
                lemma_filter_monotone(rest, source, m);
            }
        }
    }
}

/// With semantic dedupe on, re-ingesting a document whose every line has
/// shifted — same texts, different line spans — admits nothing: provenance
/// changed, but the normalized texts did not. The one hypothesis besides
/// distinct keys: any atom of the document already committed exactly was
/// committed together with its semantic key, as every semantic batch does.
pub proof fn lemma_shifted_reingest_admits_nothing(
    chunks1: Seq<ChunkModel>,
    chunks2: Seq<ChunkModel>,
    source: Seq<char>,
    m: IndexModel,
)
    requires
        m.semantic_enabled,
        forall|i: int|
            0 <= i < chunks1.len() && chunks1[i].text.len() > 0 && has_exact(
                m,
                #[trigger] chunk_key(source, chunks1[i]),
            ) ==> has_sem(m, chunk_sem_key(source, chunks1[i])),
        forall|i: int, j: int|
            0 <= i < j < chunks1.len() && chunks1[i].text.len() > 0 && chunks1[j].text.len() > 0
                ==> chunk_key(source, chunks1[i]) != chunk_key(source, chunks1[j]),
        chunks2.len() == chunks1.len(),
        forall|i: int| 0 <= i < chunks2.len() ==> chunks2[i].text == chunks1[i].text,
    ensures
        filter_new(chunks2, source, filter_new(chunks1, source, m).1).0 == Seq::<
            ChunkModel,
        >::empty(),
{
    let m1 = filter_new(chunks1, source, m).1;
    lemma_filter_registers_semantic(chunks1, source, m);
    lemma_filter_monotone(chunks1, source, m);
    assert forall|i: int|
        0 <= i < chunks2.len() && chunks2[i].text.len() > 0 implies !admit_decision(
        m1,
        chunk_key(source, chunks2[i]),
        #[trigger] chunk_sem_key(source, chunks2[i]),
    ) by {
        assert(chunk_sem_key(source, chunks2[i]) == chunk_sem_key(source, chunks1[i]));
        assert(has_sem(m1, chunk_sem_key(source, chunks1[i])));
    }
    lemma_refilter_empty(chunks2, source, m1);
}

/// Semantic dedupe absorbs line drift: ingest a document, insert one
/// leading blank line, and re-ingest — nothing new is admitted, because
/// every provenance changed but no normalized text did. The one
/// hypothesis: any atom of the document already committed exactly was
/// committed together with its semantic key, as every semantic batch does.
pub proof fn lemma_leading_blank_reingest_admits_nothing(
    content: Seq<char>,
    source: Seq<char>,
    m: IndexModel,
    markdown: bool,
)
    requires
        m.semantic_enabled,
        forall|i: int|
            0 <= i < doc_chunks(markdown, content).len() && doc_chunks(markdown, content)[i]
                .text.len() > 0 && has_exact(
                m,
                #[trigger] chunk_key(source, doc_chunks(markdown, content)[i]),
            ) ==> has_sem(m, chunk_sem_key(source, doc_chunks(markdown, content)[i])),
    ensures
        filter_new(
            doc_chunks(markdown, seq!['\n'] + content),
            source,
            filter_new(doc_chunks(markdown, content), source, m).1,
        ).0 == Seq::<ChunkModel>::empty(),
{
    let c1 = doc_chunks(markdown, content);
    let c2 = doc_chunks(markdown, seq!['\n'] + content);
    if markdown {
        lemma_markdown_chunks_shift(content);
        lemma_chunks_spans(split_lines_spec(content), 0);
    } else {
        lemma_plain_chunks_shift(content);
        lemma_plain_spans(split_lines_spec(content), 0);
    }
    assert(c2 == c1.map_values(|c: ChunkModel| shift_chunk(c)));
    assert(c2.len() == c1.len());
    assert forall|i: int, j: int|
        0 <= i < j < c1.len() && c1[i].text.len() > 0 && c1[j].text.len() > 0 implies chunk_key(
        source,
        c1[i],
    ) != chunk_key(source, c1[j]) by {
        assert(c1[i].line_start < c1[j].line_start);
    }
    lemma_shifted_reingest_admits_nothing(c1, c2, source, m);
}

/// Chunk one document and commit what the index admits, in order. The
/// returned chunks are exactly those to append to the atom log, and the
/// index afterwards holds their keys.
pub fn ingest_document(index: &mut DedupeIndex, source: &str, content: &str, markdown: bool) -> (r:
    Vec<Chunk>)
    requires
        content@.len() + 1 <= u32::MAX,
    ensures
        chunk_views(r@) == filter_new(doc_chunks(markdown, content@), source@, old(index)@).0,
        final(index)@ == filter_new(doc_chunks(markdown, content@), source@, old(index)@).1,
{
    let chunks = if markdown {
        chunk_markdown(content)
    } else {
        chunk_plain(content)
    };
    let ghost all = chunk_views(chunks@);
    let ghost m0 = index@;
    let mut out: Vec<Chunk> = Vec::new();
    let mut i: usize = 0;
    assert(all.skip(0) =~= all);
    assert(chunk_views(out@) =~= Seq::<ChunkModel>::empty());
    assert(chunk_views(out@) + filter_new(all, source@, index@).0 =~= filter_new(
        all,
        source@,
        index@,
    ).0);
    while i < chunks.len()
        invariant
            i <= chunks@.len(),
            all == chunk_views(chunks@),
            filter_new(all, source@, m0).0 == chunk_views(out@) + filter_new(
                all.skip(i as int),
                source@,
                index@,
            ).0,
            filter_new(all, source@, m0).1 == filter_new(all.skip(i as int), source@, index@).1,
        decreases chunks@.len() - i,
    {
        let ghost rest = all.skip(i as int);
        proof {
            assert(rest[0] == all[i as int]);
            assert(all[i as int] == chunks@[i as int]@);
            assert(rest.drop_first() =~= all.skip(i + 1));
        }
        let c = &chunks[i];
        if !c.text.as_str().is_empty() {
            let ghost k = ProvKeyModel {
                source: source@,
                line_start: c@.line_start,
                line_end: c@.line_end,
            };
            let norm = normalized_text(c.text.as_str());
            let ghost sk = SemKeyModel { source: source@, norm: norm_text(c@.text) };
            let dup_exact = index.contains_exact(source, c.line_start, c.line_end);
            let mut admitted = !dup_exact;
            if admitted && index.semantic_enabled {
                if index.contains_semantic(source, norm.as_str()) {
                    admitted = false;
                }
            }
            assert(admitted == admit_decision(index@, k, sk));
            if admitted {
                let ghost pre = index@;
                index.insert_exact(source, c.line_start, c.line_end);
                if index.semantic_enabled {
                    index.insert_semantic(source, norm.as_str());
                }
                assert(index@ == admit_update(pre, k, sk));
                let ghost outs = chunk_views(out@);
                let copy = Chunk {
                    line_start: c.line_start,
                    line_end: c.line_end,
                    kind: c.kind,
                    text: c.text.clone(),
                };
                out.push(copy);
                proof {
                    assert(chunk_views(out@) =~= outs.push(all[i as int]));
                    assert(chunk_views(out@) + filter_new(all.skip(i + 1), source@, index@).0
                        =~= outs + (seq![all[i as int]] + filter_new(
                        all.skip(i + 1),
                        source@,
                        index@,
                    ).0));
                }
            }
        }
        i = i + 1;
    }
    assert(all.skip(chunks@.len() as int) =~= Seq::<ChunkModel>::empty());
    assert(chunk_views(out@) + filter_new(all.skip(chunks@.len() as int), source@, index@).0
        =~= chunk_views(out@));
    out
}

} // verus!
