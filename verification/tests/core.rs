use hyena::MIN_ATOMS;
use hyena::chunk::{chunk_markdown, chunk_plain};
use hyena::cluster::{
    cluster_notes, ClusterFile, NoteRef, DEFAULT_THRESHOLD_DEN, DEFAULT_THRESHOLD_NUM,
};
use hyena::dedupe::{ingest_document, DedupeIndex, LogRecord, Provenance};
use hyena::tokens::{jaccard_counts, normalize_for_tokens, tokenize, tokenize_normalized};

fn note(text: &str, source: &str, line: u32) -> NoteRef {
    NoteRef {
        source: Some(source.to_string()),
        text: Some(text.to_string()),
        prov_source: Some(source.to_string()),
        prov_start: Some(line),
        prov_end: Some(line),
    }
}

#[test]
fn min_atoms_constant() {
    assert!(MIN_ATOMS >= 2);
}

#[test]
fn normalize_strips_markdown() {
    let t = normalize_for_tokens("**Focus:** Make hyena useful.");
    assert!(t.contains("Focus"));
    assert!(t.contains("Make"));
    assert!(!t.contains('*'));
    let t2 = normalize_for_tokens("[docs](ORG_CONTEXT.md)");
    assert!(!t2.contains('['));
    assert!(t2.contains("docs"));
}

#[test]
fn chunk_bullets_and_paragraph() {
    let md = r#"# Title

- first bullet
- second bullet

Some paragraph here.
More of it.

- another
"#;
    let chunks = chunk_markdown(md);
    assert!(chunks.len() >= 4);
    let kinds: Vec<&str> = chunks.iter().map(|c| c.kind.as_str()).collect();
    assert!(kinds.contains(&"heading"));
    assert!(kinds.contains(&"bullet"));
    assert!(kinds.contains(&"paragraph"));
    let bullet_texts: Vec<&str> = chunks
        .iter()
        .filter(|c| c.kind.as_str() == "bullet")
        .map(|c| c.text.as_str())
        .collect();
    assert!(bullet_texts.contains(&"first bullet"));
    assert!(bullet_texts.contains(&"second bullet"));
}

#[test]
fn chunk_code_block() {
    let md = r#"Before
```rust
fn main() {}
```
After
"#;
    let chunks = chunk_markdown(md);
    let code: Vec<_> = chunks
        .iter()
        .filter(|c| c.kind.as_str() == "code_block")
        .collect();
    assert_eq!(code.len(), 1);
    assert!(code[0].text.contains("fn main()"));
}

#[test]
fn chunk_plain_one_per_line() {
    let text = "first line\n\nsecond line\n  trimmed  \n";
    let chunks = chunk_plain(text);
    assert_eq!(chunks.len(), 3);
    assert_eq!(chunks[0].kind.as_str(), "line");
    assert_eq!(chunks[0].text, "first line");
    assert_eq!(chunks[1].text, "second line");
    assert_eq!(chunks[2].text, "trimmed");
}

#[test]
fn tokenize_and_jaccard() {
    let a = tokenize("alpha beta gamma");
    let b = tokenize("alpha beta delta");
    let (inter, uni) = jaccard_counts(&a, &b);
    assert!(inter as f64 / uni as f64 > 0.3);
    let (si, su) = jaccard_counts(&a, &a);
    assert!(si as f64 / su as f64 >= 0.99);
}

#[test]
fn chunking_is_deterministic() {
    let md = "# T\n\n- a\n\nPara.\n```\ncode\n```\n";
    let c1 = chunk_markdown(md);
    let c2 = chunk_markdown(md);
    assert_eq!(c1.len(), c2.len());
    for (x, y) in c1.iter().zip(c2.iter()) {
        assert_eq!(x.line_start, y.line_start);
        assert_eq!(x.line_end, y.line_end);
        assert_eq!(x.kind.as_str(), y.kind.as_str());
        assert_eq!(x.text, y.text);
    }
}

#[test]
fn tokenize_is_deterministic() {
    let t = "Alpha, beta; ALPHA gamma!";
    assert_eq!(tokenize(t), tokenize(t));
    assert_eq!(tokenize_normalized(t), tokenize_normalized(t));
}

#[test]
fn tokenize_lowercases_and_splits() {
    let t = tokenize("ALPHA beta,ALPHA;gamma");
    assert_eq!(t, vec!["alpha".to_string(), "beta".to_string(), "gamma".to_string()]);
}

#[test]
fn markdown_chunking_exact_shape() {
    let chunks = chunk_markdown("# Title\n\n- first\n- second\n\nPara one.\nPara two.\n");
    assert_eq!(chunks.len(), 4);
    assert_eq!(chunks[0].kind.as_str(), "heading");
    assert_eq!(chunks[0].text, "Title");
    assert_eq!(chunks[1].kind.as_str(), "bullet");
    assert_eq!(chunks[1].text, "first");
    assert_eq!(chunks[2].kind.as_str(), "bullet");
    assert_eq!(chunks[2].text, "second");
    assert_eq!(chunks[3].kind.as_str(), "paragraph");
    assert_eq!(chunks[3].text, "Para one. Para two.");
}

#[test]
fn plain_chunking_line_spans() {
    let chunks = chunk_plain("one\ntwo\nthree\n");
    assert_eq!(chunks.len(), 3);
    for (i, c) in chunks.iter().enumerate() {
        assert_eq!(c.kind.as_str(), "line");
        assert_eq!(c.line_start, (i + 1) as u32);
        assert_eq!(c.line_end, (i + 1) as u32);
    }
}

#[test]
fn exact_dedupe_second_run_admits_nothing() {
    let doc = "# T\n\n- a\n- b\n";
    let mut index = DedupeIndex::new(false);
    let first = ingest_document(&mut index, "NOTES.md", doc, true);
    assert!(first.len() >= 3);
    let second = ingest_document(&mut index, "NOTES.md", doc, true);
    assert_eq!(second.len(), 0);
}

#[test]
fn semantic_dedupe_absorbs_line_shift() {
    let doc = "# T\n\n- keep this\n";
    let shifted = "\n# T\n\n- keep this\n";
    let mut index = DedupeIndex::new(true);
    let first = ingest_document(&mut index, "NOTES.md", doc, true);
    assert!(first.len() >= 2);
    let second = ingest_document(&mut index, "NOTES.md", shifted, true);
    assert_eq!(second.len(), 0);
}

#[test]
fn exact_dedupe_alone_sees_shift_as_new() {
    let doc = "- keep this\n";
    let shifted = "\n- keep this\n";
    let mut index = DedupeIndex::new(false);
    let first = ingest_document(&mut index, "NOTES.md", doc, true);
    assert_eq!(first.len(), 1);
    let second = ingest_document(&mut index, "NOTES.md", shifted, true);
    assert_eq!(second.len(), 1);
}

#[test]
fn index_from_records_tracks_keys() {
    let records = vec![
        LogRecord {
            source: Some("a.md".to_string()),
            text: Some("hello world".to_string()),
            provenance: Some(Provenance {
                source_file: "a.md".to_string(),
                line_start: 1,
                line_end: 1,
            }),
        },
        LogRecord {
            source: None,
            text: Some("free floating".to_string()),
            provenance: None,
        },
    ];
    let index = DedupeIndex::from_records(&records, true);
    assert!(index.contains_exact("a.md", 1, 1));
    assert!(!index.contains_exact("a.md", 2, 2));
    assert!(!index.contains_exact("b.md", 1, 1));
}

#[test]
fn jaccard_self_and_empty_convention() {
    let a = tokenize("alpha beta");
    let (inter, uni) = jaccard_counts(&a, &a);
    assert_eq!(inter, 2);
    assert_eq!(uni, 2);
    // two empty token sets: 0/0, similarity 1.0 by convention
    let e = tokenize("... !!");
    assert!(e.is_empty());
    let (ei, eu) = jaccard_counts(&e, &e);
    assert_eq!(ei, 0);
    assert_eq!(eu, 0);
}

#[test]
fn jaccard_symmetry() {
    let a = tokenize("alpha beta gamma");
    let b = tokenize("beta delta");
    let (i1, u1) = jaccard_counts(&a, &b);
    let (i2, u2) = jaccard_counts(&b, &a);
    assert_eq!(i1, i2);
    assert_eq!(u1, u2);
    assert_eq!(i1, 1);
    assert_eq!(u1, 4);
}

#[test]
fn clustering_threshold_scenario() {
    let records = vec![
        note("alpha beta gamma", "a.md", 1),
        note("alpha beta delta", "a.md", 2),
        note("zzz unrelated text", "a.md", 3),
    ];
    // Jaccard of the first two is 2/4 = 0.5: below the 0.65 default, so
    // nothing merges and no cluster is emitted.
    let high: Vec<ClusterFile> =
        cluster_notes(&records, DEFAULT_THRESHOLD_NUM, DEFAULT_THRESHOLD_DEN, MIN_ATOMS);
    assert_eq!(high.len(), 0);
    // At 0.3 the first two merge into one cluster of size 2; the third
    // stays a singleton and is omitted.
    let low: Vec<ClusterFile> = cluster_notes(&records, 30, 100, MIN_ATOMS);
    assert_eq!(low.len(), 1);
    assert_eq!(low[0].notes.len(), 2);
    let texts: Vec<&str> = low[0].notes.iter().map(|n| n.text.as_str()).collect();
    assert!(texts.contains(&"alpha beta gamma"));
    assert!(texts.contains(&"alpha beta delta"));
}

#[test]
fn too_few_atoms_yield_no_clusters() {
    let records = vec![note("alpha beta", "a.md", 1)];
    let out = cluster_notes(&records, 30, 100, MIN_ATOMS);
    assert_eq!(out.len(), 0);
}

#[test]
fn clustering_drops_duplicate_provenance() {
    // two lines with the same provenance key count as one atom
    let records = vec![
        note("alpha beta", "a.md", 1),
        note("alpha beta", "a.md", 1),
    ];
    let out = cluster_notes(&records, 30, 100, MIN_ATOMS);
    assert_eq!(out.len(), 0);
}

#[test]
fn clustering_is_transitive() {
    // a-b and b-c are similar; a-c only through b: one cluster of three
    let records = vec![
        note("red green blue", "a.md", 1),
        note("red green yellow", "a.md", 2),
        note("green yellow purple orange", "a.md", 3),
    ];
    let out = cluster_notes(&records, 40, 100, 2);
    assert_eq!(out.len(), 1);
    assert_eq!(out[0].notes.len(), 3);
}

#[test]
fn unterminated_fence_runs_to_end() {
    let chunks = chunk_markdown("```\ncode here\n");
    assert_eq!(chunks.len(), 1);
    assert_eq!(chunks[0].kind.as_str(), "code_block");
    assert_eq!(chunks[0].line_start, 1);
    assert_eq!(chunks[0].line_end, 2);
}

#[test]
fn empty_bullet_and_heading_are_dropped() {
    let chunks = chunk_markdown("#\n- \n- kept\n");
    assert_eq!(chunks.len(), 1);
    assert_eq!(chunks[0].kind.as_str(), "bullet");
    assert_eq!(chunks[0].text, "kept");
}
