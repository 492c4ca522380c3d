use memq::app_config::{AddOutcome, AppConfig};
use memq::fuzzy::{edit_distance, token_similarity};
use memq::fuzzy_query::{FuzzyQuery, FuzzyQueryError, Query};
use memq::index::{Index, LoadedDoc, PathError};
use memq::query::lex_less;
use memq::text::{content_hash, is_markdown_path, normalize_text, tokenize};

fn chars(s: &str) -> Vec<char> {
    s.chars().collect()
}

fn text(v: &[char]) -> String {
    v.iter().collect()
}

fn doc(path: &str, content: &str) -> LoadedDoc {
    LoadedDoc { path: chars(path), content: chars(content) }
}

fn synced(docs: Vec<LoadedDoc>) -> FuzzyQuery {
    let mut engine = FuzzyQuery::new(None);
    engine.sync(&docs, 100, Vec::new());
    engine
}

fn snapshot(index: &Index) -> Vec<(String, u64, u64, String, Vec<(String, usize)>)> {
    index
        .docs
        .iter()
        .map(|d| {
            (
                text(&d.path),
                d.hash,
                d.synced_at,
                text(&d.text),
                d.tokens.iter().map(|t| (text(&t.text), t.offset)).collect(),
            )
        })
        .collect()
}

#[test]
fn example_scenario_typo_and_miss() {
    let engine = synced(vec![doc("/docs/a.md", "The quick brown fox")]);
    let hits = engine.query(&chars("quikc")).unwrap();
    assert_eq!(hits.len(), 1);
    assert_eq!(text(&hits[0].path), "/docs/a.md");
    assert!(hits[0].score > 0);
    assert!(text(&hits[0].snippet).contains("quick"));
    let none = engine.query(&chars("xyz123")).unwrap();
    assert!(none.is_empty());
}

#[test]
fn sync_twice_is_idempotent() {
    let docs = vec![doc("/a.md", "alpha beta"), doc("/b.md", "# Gamma *delta*")];
    let mut engine = FuzzyQuery::new(None);
    let first = engine.sync(&docs, 10, Vec::new());
    assert_eq!((first.added, first.updated, first.removed), (2, 0, 0));
    let before = snapshot(engine.index.as_ref().unwrap());
    let second = engine.sync(&docs, 20, Vec::new());
    assert_eq!((second.added, second.updated, second.removed), (0, 0, 0));
    assert_eq!(snapshot(engine.index.as_ref().unwrap()), before);
}

#[test]
fn change_updates_only_that_document() {
    let mut engine = FuzzyQuery::new(None);
    engine.sync(&vec![doc("/a.md", "alpha beta"), doc("/b.md", "gamma delta")], 10, Vec::new());
    let before = snapshot(engine.index.as_ref().unwrap());
    let summary = engine.sync(&vec![doc("/a.md", "alpha beta"), doc("/b.md", "epsilon")], 20, Vec::new());
    assert_eq!((summary.added, summary.updated, summary.removed), (0, 1, 0));
    let after = snapshot(engine.index.as_ref().unwrap());
    assert_eq!(after[0], before[0]);
    assert_eq!(after[1].0, "/b.md");
    assert_eq!(after[1].2, 20);
    assert_eq!(after[1].4, vec![("epsilon".to_string(), 0)]);
}

#[test]
fn deleted_document_leaves_index_and_results() {
    let mut engine = FuzzyQuery::new(None);
    engine.sync(&vec![doc("/a.md", "search me"), doc("/b.md", "search you")], 10, Vec::new());
    assert_eq!(engine.query(&chars("search")).unwrap().len(), 2);
    let summary = engine.sync(&vec![doc("/b.md", "search you")], 20, Vec::new());
    assert_eq!((summary.added, summary.updated, summary.removed), (0, 0, 1));
    let hits = engine.query(&chars("search")).unwrap();
    assert_eq!(hits.len(), 1);
    assert_eq!(text(&hits[0].path), "/b.md");
    assert_eq!(engine.index.as_ref().unwrap().docs.len(), 1);
}

#[test]
fn one_substitution_still_matches() {
    let engine = synced(vec![doc("/s.md", "How to search notes")]);
    let hits = engine.query(&chars("serch")).unwrap();
    assert_eq!(hits.len(), 1);
    let hits = engine.query(&chars("seerch")).unwrap();
    assert_eq!(hits.len(), 1);
    assert!(engine.query(&chars("qqqqqq")).unwrap().is_empty());
}

#[test]
fn ranking_is_by_score_then_path() {
    let engine = synced(vec![
        doc("/z.md", "search"),
        doc("/c.md", "serch"),
        doc("/a.md", "search"),
    ]);
    for _ in 0..3 {
        let hits = engine.query(&chars("search")).unwrap();
        let order: Vec<(String, usize)> = hits.iter().map(|h| (text(&h.path), h.score)).collect();
        assert_eq!(
            order,
            vec![("/a.md".to_string(), 3), ("/z.md".to_string(), 3), ("/c.md".to_string(), 2)]
        );
    }
}

#[test]
fn keyword_is_case_folded() {
    let engine = synced(vec![doc("/a.md", "Rust Verus")]);
    let hits = engine.query(&chars("VERUS")).unwrap();
    assert_eq!(hits[0].score, 3);
}

#[test]
fn limit_caps_results() {
    let mut engine = synced(vec![doc("/a.md", "note"), doc("/b.md", "note"), doc("/c.md", "note")]);
    engine.limit = 2;
    let hits = engine.query(&chars("note")).unwrap();
    assert_eq!(hits.len(), 2);
    assert_eq!(text(&hits[0].path), "/a.md");
    assert_eq!(text(&hits[1].path), "/b.md");
}

#[test]
fn short_keyword_is_invalid() {
    let engine = synced(vec![doc("/a.md", "anything")]);
    assert_eq!(engine.query(&chars("a")).unwrap_err(), FuzzyQueryError::InvalidQuery);
    assert_eq!(engine.query(&chars("")).unwrap_err(), FuzzyQueryError::InvalidQuery);
}

#[test]
fn query_before_sync_is_unavailable() {
    let engine = FuzzyQuery::new(None);
    assert_eq!(engine.query(&chars("word")).unwrap_err(), FuzzyQueryError::IndexUnavailable);
}

#[test]
fn sync_passes_errors_on() {
    let mut engine = FuzzyQuery::new(None);
    let errors = vec![PathError { path: chars("/x.md"), reason: chars("unreadable") }];
    let summary = engine.sync(&vec![doc("/a.md", "fine")], 1, errors);
    assert_eq!(summary.errors.len(), 1);
    assert_eq!(text(&summary.errors[0].path), "/x.md");
    assert_eq!(summary.added, 1);
}

#[test]
fn duplicate_load_keeps_first() {
    let engine = synced(vec![doc("/a.md", "first"), doc("/a.md", "second")]);
    let index = engine.index.as_ref().unwrap();
    assert_eq!(index.docs.len(), 1);
    assert_eq!(text(&index.docs[0].text), "first");
}

#[test]
fn snippet_is_bounded_window() {
    let body = format!("{}needle{}", "a ".repeat(40), " b".repeat(40));
    let engine = synced(vec![doc("/n.md", &body)]);
    let hits = engine.query(&chars("needle")).unwrap();
    let snip = text(&hits[0].snippet);
    assert_eq!(snip.chars().count(), 40 + 6 + 40);
    assert!(snip.contains("needle"));
}

#[test]
fn tokenizer_strips_markdown_and_short_words() {
    let toks = tokenize(&chars("# Hello, *World*! a [link](x.md)"), &Vec::new());
    let got: Vec<(String, usize)> = toks.iter().map(|t| (text(&t.text), t.offset)).collect();
    assert_eq!(
        got,
        vec![
            ("hello".to_string(), 2),
            ("world".to_string(), 10),
            ("link".to_string(), 21),
            ("md".to_string(), 29),
        ]
    );
    assert!(tokenize(&chars(""), &Vec::new()).is_empty());
    assert_eq!(tokenize(&chars("Éa xy"), &Vec::new()).len(), 2);
}

#[test]
fn normalize_folds_ascii_capitals() {
    assert_eq!(text(&normalize_text(&chars("AbC-Ü"))), "abc-Ü");
}

#[test]
fn edit_distance_values() {
    assert_eq!(edit_distance(&chars("kitten"), &chars("sitting")), 3);
    assert_eq!(edit_distance(&chars(""), &chars("abc")), 3);
    assert_eq!(edit_distance(&chars("quikc"), &chars("quick")), 2);
    assert_eq!(edit_distance(&chars("same"), &chars("same")), 0);
}

#[test]
fn similarity_values() {
    assert_eq!(token_similarity(&chars("search"), &chars("search"), 2), 3);
    assert_eq!(token_similarity(&chars("serch"), &chars("search"), 2), 2);
    assert_eq!(token_similarity(&chars("quikc"), &chars("quick"), 2), 1);
    assert_eq!(token_similarity(&chars("ab"), &chars("ax"), 2), 1);
    assert_eq!(token_similarity(&chars("ab"), &chars("xy"), 2), 0);
    assert_eq!(token_similarity(&chars("abcd"), &chars("abcdefgh"), 2), 0);
}

#[test]
fn content_hash_values() {
    assert_eq!(content_hash(&chars("")), 0);
    assert_eq!(content_hash(&chars("ab")), 97 * 131 + 98);
    assert_ne!(content_hash(&chars("ab")), content_hash(&chars("ba")));
}

#[test]
fn lexicographic_order() {
    assert!(lex_less(&chars("/a.md"), &chars("/b.md")));
    assert!(lex_less(&chars("ab"), &chars("abc")));
    assert!(!lex_less(&chars("abc"), &chars("ab")));
    assert!(!lex_less(&chars("same"), &chars("same")));
}

#[test]
fn watchlist_add_and_remove() {
    let mut cfg = AppConfig::new();
    let paths = vec!["/a".to_string(), "/b".to_string(), "/a".to_string(), "/c".to_string()];
    let out = cfg.add_docs(&paths, &vec![true, false, true, true]);
    assert_eq!(
        out,
        vec![AddOutcome::Added, AddOutcome::Missing, AddOutcome::AlreadyWatched, AddOutcome::Added]
    );
    assert_eq!(cfg.paths(), vec!["/a".to_string(), "/c".to_string()]);
    assert!(cfg.docs.iter().all(|d| !d.is_indexed));
    cfg.remove_doc_paths(&vec!["/a".to_string(), "/zzz".to_string()]);
    assert_eq!(cfg.paths(), vec!["/c".to_string()]);
}

#[test]
fn stop_words_are_not_indexed() {
    let toks = tokenize(&chars("The cat and THE dog"), &vec![chars("the"), chars("and")]);
    let got: Vec<(String, usize)> = toks.iter().map(|t| (text(&t.text), t.offset)).collect();
    assert_eq!(got, vec![("cat".to_string(), 4), ("dog".to_string(), 16)]);
    let mut engine = FuzzyQuery::new(None);
    engine.stop_words = vec![chars("the")];
    engine.sync(&vec![doc("/a.md", "the")], 1, Vec::new());
    assert!(engine.query(&chars("the")).unwrap().is_empty());
    assert!(engine.index.as_ref().unwrap().docs[0].tokens.is_empty());
}

#[test]
fn mark_indexed_sets_every_flag() {
    let mut cfg = AppConfig::new();
    cfg.add_docs(&vec!["/a".to_string(), "/b".to_string()], &vec![true, true]);
    cfg.mark_indexed();
    assert_eq!(cfg.paths(), vec!["/a".to_string(), "/b".to_string()]);
    assert!(cfg.docs.iter().all(|d| d.is_indexed));
}

#[test]
fn tolerance_is_configurable() {
    let mut engine = synced(vec![doc("/s.md", "search")]);
    assert_eq!(engine.tolerance, 2);
    assert_eq!(engine.query(&chars("seerch")).unwrap().len(), 1);
    assert_eq!(engine.query(&chars("sarche")).unwrap().len(), 1);
    engine.tolerance = 1;
    assert!(engine.query(&chars("sarche")).unwrap().is_empty());
    assert_eq!(engine.query(&chars("serch")).unwrap().len(), 1);
    engine.tolerance = 0;
    assert!(engine.query(&chars("serch")).unwrap().is_empty());
    assert_eq!(engine.query(&chars("search")).unwrap()[0].score, 1);
    assert_eq!(token_similarity(&chars("search"), &chars("xearcx"), 3), 2);
    assert_eq!(token_similarity(&chars("ab"), &chars("ax"), 0), 0);
}

#[test]
fn layout_is_sorted_whatever_the_load_order() {
    let a = synced(vec![doc("/b.md", "beta"), doc("/a.md", "alpha"), doc("/c.md", "gamma")]);
    let b = synced(vec![doc("/c.md", "gamma"), doc("/a.md", "alpha"), doc("/b.md", "beta")]);
    let sa = snapshot(a.index.as_ref().unwrap());
    assert_eq!(sa, snapshot(b.index.as_ref().unwrap()));
    let paths: Vec<String> = sa.iter().map(|e| e.0.clone()).collect();
    assert_eq!(paths, vec!["/a.md", "/b.md", "/c.md"]);
    assert!(a.index.as_ref().unwrap().is_well_formed());
    let mut a = a;
    let mut docs = a.index.take().unwrap().docs;
    docs.reverse();
    assert!(!Index { docs }.is_well_formed());
    assert!(Index { docs: Vec::new() }.is_well_formed());
}

#[test]
fn markdown_paths() {
    assert!(is_markdown_path(&chars("/docs/a.md")));
    assert!(is_markdown_path(&chars("notes.markdown")));
    assert!(!is_markdown_path(&chars("/docs/a.txt")));
    assert!(!is_markdown_path(&chars("md")));
    assert!(!is_markdown_path(&chars("")));
}
