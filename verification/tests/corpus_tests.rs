use tuan::corpus::Corpus;

fn toks(words: &[&str]) -> Vec<String> {
    words.iter().map(|w| String::from(*w)).collect()
}

fn score(tf: usize, df: usize, len: usize, n_docs: usize) -> f64 {
    let l = if len == 0 { 1.0 } else { len as f64 };
    (tf as f64 / l) * (((n_docs as f64 + 1.0) / (df as f64 + 1.0)).ln() + 1.0)
}

#[test]
fn tfidf_matches_the_formula() {
    let mut c = Corpus::new();
    c.ingest_document(&toks(&["foo", "foo", "bar"]));
    assert_eq!(c.n_docs, 1);
    let stats = c.tfidf(&toks(&["foo", "foo", "bar"]));
    assert_eq!(stats.len(), 2);
    assert_eq!(stats[0].token, "foo");
    assert_eq!(stats[0].tf, 2);
    assert_eq!(stats[0].df, 1);
    assert_eq!(stats[0].len, 3);
    assert_eq!(stats[0].n_docs, 1);
    assert_eq!(stats[1].token, "bar");
    assert_eq!(stats[1].tf, 1);
    let s_foo = score(stats[0].tf, stats[0].df, stats[0].len, stats[0].n_docs);
    let s_bar = score(stats[1].tf, stats[1].df, stats[1].len, stats[1].n_docs);
    assert!((s_foo - 2.0 / 3.0).abs() < 1e-9);
    assert!((s_bar - 1.0 / 3.0).abs() < 1e-9);
    assert!(s_foo > s_bar);
}

#[test]
fn tfidf_of_empty_query_is_empty() {
    let mut c = Corpus::new();
    c.ingest_document(&toks(&["foo"]));
    let stats = c.tfidf(&toks(&[]));
    assert_eq!(stats.len(), 0);
}

#[test]
fn unseen_token_has_zero_df_and_smoothed_idf() {
    let mut c = Corpus::new();
    c.ingest_document(&toks(&["alpha"]));
    c.ingest_document(&toks(&["beta"]));
    let stats = c.tfidf(&toks(&["gamma"]));
    assert_eq!(stats.len(), 1);
    assert_eq!(stats[0].df, 0);
    assert_eq!(stats[0].tf, 1);
    assert_eq!(stats[0].len, 1);
    assert_eq!(stats[0].n_docs, 2);
    let s = score(1, 0, 1, 2);
    assert!((s - ((3.0f64).ln() + 1.0)).abs() < 1e-9);
}

#[test]
fn ingesting_the_same_document_twice_doubles_counts() {
    let doc = toks(&["foo", "bar", "foo"]);
    let mut c = Corpus::new();
    c.ingest_document(&doc);
    c.ingest_document(&doc);
    assert_eq!(c.n_docs, 2);
    let stats = c.tfidf(&toks(&["foo", "bar", "baz"]));
    assert_eq!(stats[0].token, "foo");
    assert_eq!(stats[0].df, 2);
    assert_eq!(stats[1].token, "bar");
    assert_eq!(stats[1].df, 2);
    assert_eq!(stats[2].token, "baz");
    assert_eq!(stats[2].df, 0);
}

#[test]
fn duplicate_tokens_count_one_document() {
    let mut c = Corpus::new();
    c.ingest_document(&toks(&["x1y", "x1y", "x1y"]));
    let stats = c.tfidf(&toks(&["x1y"]));
    assert_eq!(stats[0].df, 1);
}
