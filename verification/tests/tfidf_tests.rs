use crow_text::tfidf::{TermMatch, TfIdfEngine};

fn matches(e: &TfIdfEngine, q: &str) -> Vec<(String, Vec<TermMatch>)> {
    e.try_score_inputs(q)
        .unwrap()
        .into_iter()
        .map(|m| (m.key, m.terms))
        .collect()
}

#[test]
fn index_counts_chunks() {
    let mut e = TfIdfEngine::new();
    assert!(e.try_update_document("doc1", "[\"apple banana\", \"banana cherry\"]"));
    assert_eq!(e.chunk_count(), 2);
    let m = matches(&e, "banana");
    assert_eq!(m.len(), 2);
    for (key, terms) in &m {
        assert_eq!(key, "doc1");
        assert_eq!(
            terms,
            &vec![TermMatch { chunk_frequency: 1, query_frequency: 1, chunk_occurrences: 2 }]
        );
    }
}

#[test]
fn chunks_without_query_terms() {
    let mut e = TfIdfEngine::new();
    assert!(e.try_update_document("d", "[\"apple apple\", \"cherry\"]"));
    let m = matches(&e, "apple apple pear");
    assert_eq!(m.len(), 2);
    assert_eq!(
        m[0].1,
        vec![TermMatch { chunk_frequency: 2, query_frequency: 2, chunk_occurrences: 1 }]
    );
    assert!(m[1].1.is_empty());
}

#[test]
fn update_replaces_document() {
    let mut e = TfIdfEngine::new();
    assert!(e.try_update_document("k", "[\"apple\"]"));
    assert!(e.try_update_document("k", "[\"banana\", \"banana split\"]"));
    assert_eq!(e.chunk_count(), 2);
    assert!(matches(&e, "apple").iter().all(|(_, t)| t.is_empty()));
    let m = matches(&e, "banana");
    assert_eq!(m[0].1[0].chunk_occurrences, 2);
}

#[test]
fn delete_document_removes_counts() {
    let mut e = TfIdfEngine::new();
    e.update_document("a", "[\"shared words\"]");
    e.update_document("b", "[\"shared things\"]");
    assert_eq!(matches(&e, "shared")[0].1[0].chunk_occurrences, 2);
    e.delete_document("a");
    assert_eq!(e.chunk_count(), 1);
    let m = matches(&e, "shared");
    assert_eq!(m.len(), 1);
    assert_eq!(m[0].0, "b");
    assert_eq!(m[0].1[0].chunk_occurrences, 1);
    e.delete_document("missing");
    assert_eq!(e.chunk_count(), 1);
}

#[test]
fn invalid_json_still_deletes() {
    let mut e = TfIdfEngine::new();
    e.update_document("a", "[\"apple\"]");
    assert!(e.try_update_document("a", "not json"));
    assert_eq!(e.chunk_count(), 0);
    assert!(matches(&e, "apple").is_empty());
}

#[test]
fn update_then_delete_restores_index() {
    let mut e = TfIdfEngine::new();
    e.update_document("a", "[\"shared apple\", \"cherry pie\"]");
    let before = matches(&e, "shared cherry banana");
    let count = e.chunk_count();
    e.update_document("b", "[\"shared banana\", \"banana bread\", \"cherry\"]");
    e.delete_document("b");
    assert_eq!(e.chunk_count(), count);
    assert_eq!(matches(&e, "shared cherry banana"), before);
    e.delete_document("a");
    e.delete_document("a");
    assert_eq!(e.chunk_count(), 0);
    assert!(matches(&e, "shared").is_empty());
}
