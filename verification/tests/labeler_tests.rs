use tuan::scorer::{LabelEntry, ProjectLabeler, TokensScorer};
use tuan::tokenize::{tokenize_file, tokenize_path};

fn s(x: &str) -> String {
    String::from(x)
}

fn score(tf: usize, df: usize, len: usize, n_docs: usize) -> f64 {
    let l = if len == 0 { 1.0 } else { len as f64 };
    (tf as f64 / l) * (((n_docs as f64 + 1.0) / (df as f64 + 1.0)).ln() + 1.0)
}

fn combined_score(e: &LabelEntry) -> f64 {
    let f = e.file.as_ref().map_or(0.0, |t| score(t.tf, t.df, t.len, t.n_docs));
    let p = e.path.as_ref().map_or(0.0, |t| score(t.tf, t.df, t.len, t.n_docs));
    f + p
}

#[test]
fn camel_case_identifier_splits_into_words() {
    let toks = tokenize_file("const getUserName = 1;", "ts");
    assert!(toks.contains(&s("get")));
    assert!(toks.contains(&s("user")));
    assert!(toks.contains(&s("name")));
    assert!(!toks.contains(&s("const")));
}

#[test]
fn undefined_and_keywords_are_dropped() {
    let toks = tokenize_file("let someValue = undefined; function forever() {}", "js");
    assert!(toks.contains(&s("some")));
    assert!(toks.contains(&s("value")));
    assert!(toks.contains(&s("forever")));
    assert!(!toks.contains(&s("undefined")));
    assert!(!toks.contains(&s("let")));
    assert!(!toks.contains(&s("function")));
}

#[test]
fn short_pieces_are_dropped() {
    let toks = tokenize_file("const abXy = 1;", "ts");
    assert!(!toks.contains(&s("ab")));
    assert!(!toks.contains(&s("xy")));
}

#[test]
fn path_tokens_strip_the_project_prefix() {
    let toks = tokenize_path("/proj/src/userAccount.ts", "/proj");
    assert!(toks.contains(&s("src")));
    assert!(toks.contains(&s("user")));
    assert!(toks.contains(&s("account")));
    assert!(!toks.iter().any(|t| t.contains("proj")));
}

#[test]
fn scorer_skips_missing_and_repeated_paths() {
    let mut sc = TokensScorer::new();
    sc.ingest(vec![
        (s("/p/a.ts"), vec![s("alpha"), s("beta")]),
        (s("/p/b.ts"), vec![s("alpha")]),
    ]);
    let stats = sc.run(&vec![s("/p/a.ts"), s("/p/a.ts"), s("/p/missing.ts")]);
    assert_eq!(stats.len(), 2);
    assert_eq!(stats[0].token, "alpha");
    assert_eq!(stats[0].tf, 1);
    assert_eq!(stats[0].df, 2);
    assert_eq!(stats[0].len, 2);
    assert_eq!(stats[0].n_docs, 2);
    assert_eq!(stats[1].token, "beta");
    assert_eq!(stats[1].df, 1);
}

#[test]
fn label_scores_add_the_two_channels() {
    let files = vec![
        (s("/p/userStore.ts"), s("const userState = 1; const userCache = 2;")),
        (s("/p/other.ts"), s("const unrelatedThing = 3;")),
    ];
    let labeler = ProjectLabeler::new(s("/p"), files);
    let entries = labeler.label_files(&vec![s("/p/userStore.ts")]);
    let user = entries.iter().find(|e| e.token == "user").expect("user entry");
    assert!(user.file.is_some());
    assert!(user.path.is_some());
    let f = user.file.as_ref().unwrap();
    let p = user.path.as_ref().unwrap();
    let total = combined_score(user);
    assert!(
        (total - (score(f.tf, f.df, f.len, f.n_docs) + score(p.tf, p.df, p.len, p.n_docs))).abs()
            < 1e-12
    );
    let state = entries.iter().find(|e| e.token == "state").expect("state entry");
    assert!(state.file.is_some());
    assert!(state.path.is_none());
    assert!(combined_score(state) > 0.0);
}

#[test]
fn tokens_appear_once_across_channels() {
    let files = vec![(s("/p/storeThing.ts"), s("const storeThing = 1;"))];
    let labeler = ProjectLabeler::new(s("/p"), files);
    let entries = labeler.label_files(&vec![s("/p/storeThing.ts")]);
    let mut tokens: Vec<String> = entries.iter().map(|e| e.token.clone()).collect();
    let before = tokens.len();
    tokens.sort();
    tokens.dedup();
    assert_eq!(tokens.len(), before);
    assert!(tokens.contains(&s("store")));
    assert!(tokens.contains(&s("thing")));
}
