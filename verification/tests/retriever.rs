use deckhand_rs::index::Retriever;
use deckhand_rs::rank::rank;
use deckhand_rs::FileEntry;

fn entry(rel_path: &str, content: &str) -> FileEntry {
    FileEntry {
        path: format!("/tmp/test_deckhand/{}", rel_path),
        rel_path: rel_path.to_string(),
        words: content.split_whitespace().count(),
    }
}

const CONSERVATION: &str =
    "The conservation law of intelligence states that every mind runs on a budget.";
const CHARTS: &str =
    "Languages are navigation charts of the same territory drawn for different readers.";
const BOAT: &str =
    "The boat is the reference implementation for edge-first thinking at 12 volts.";
const RATE_LIMIT: &str =
    "The rate limit is a conservation fence that prevents overconsumption of tokens.";

fn corpus() -> (Vec<FileEntry>, Vec<String>) {
    let docs = [
        ("docs/conservation.md", CONSERVATION),
        ("docs/charts.md", CHARTS),
        ("docs/boat.md", BOAT),
        ("docs/rate_limit.md", RATE_LIMIT),
    ];
    let files = docs.iter().map(|(p, c)| entry(p, c)).collect();
    let contents = docs.iter().map(|(_, c)| c.to_string()).collect();
    (files, contents)
}

fn build(files: &[FileEntry], contents: &[String]) -> Retriever {
    Retriever::new(files, contents).unwrap()
}

struct Hit {
    rel_path: String,
    score: f64,
    snippet: String,
}

/// BM25 over the counts the index hands out; the index ranks the scored
/// documents and assembles the results.
fn search(index: &Retriever, k1: f64, b: f64, query: &str, top_k: usize) -> Vec<Hit> {
    let terms = Retriever::tokenize(query);
    let n = index.total_docs();
    let stats = index.stats();
    let avg_len = if n > 0 { stats.total_terms as f64 / n as f64 } else { 1.0 }.max(1.0);
    let mut scored: Vec<(usize, u64)> = Vec::new();
    for i in 0..n {
        let dl = index.doc_length(i) as f64;
        let mut score = 0.0;
        for (df, f) in index.term_stats(&terms, i) {
            if df == 0 {
                continue;
            }
            let idf = ((n as f64 - df as f64 + 0.5) / (df as f64 + 0.5) + 1.0).ln();
            if idf == 0.0 || f == 0 {
                continue;
            }
            let f = f as f64;
            score += idf * (f * (k1 + 1.0)) / (f + k1 * (1.0 - b + b * dl / avg_len));
        }
        if score > 0.0 {
            scored.push((i, f64::to_bits(score)));
        }
    }
    index
        .search_hits(&terms, &scored, top_k)
        .into_iter()
        .map(|h| Hit {
            rel_path: h.rel_path,
            score: f64::from_bits(scored[h.position].1),
            snippet: h.snippet,
        })
        .collect()
}

fn strings(words: &[&str]) -> Vec<String> {
    words.iter().map(|w| w.to_string()).collect()
}

#[test]
fn test_search_returns_results() {
    let (files, contents) = corpus();
    let retriever = build(&files, &contents);
    let results = search(&retriever, 1.5, 0.75, "conservation law budget", 10);

    assert!(!results.is_empty());
    assert!(results[0].rel_path.to_lowercase().contains("conservation"));
}

#[test]
fn test_search_ranks_relevant_first() {
    let (files, contents) = corpus();
    let retriever = build(&files, &contents);
    let results = search(&retriever, 1.5, 0.75, "boat edge-first", 10);

    assert!(!results.is_empty());
    assert!(results[0].rel_path.to_lowercase().contains("boat"));
}

#[test]
fn test_empty_query_returns_nothing() {
    let files = vec![entry("docs/test.md", "Some test content here.")];
    let contents = strings(&["Some test content here."]);
    let retriever = build(&files, &contents);
    let results = search(&retriever, 1.5, 0.75, "", 10);

    assert!(results.is_empty());
}

#[test]
fn test_no_match_returns_empty() {
    let files = vec![entry("docs/test.md", "Some test content here.")];
    let contents = strings(&["Some test content here."]);
    let retriever = build(&files, &contents);
    let results = search(&retriever, 1.5, 0.75, "quantum_entanglement_teleportation_xyzzy", 10);

    assert!(results.is_empty());
}

#[test]
fn test_top_k_limit() {
    let (files, contents) = corpus();
    let retriever = build(&files, &contents);
    let results = search(&retriever, 1.5, 0.75, "the", 2);

    assert!(results.len() <= 2);
}

#[test]
fn test_stats() {
    let (files, contents) = corpus();
    let retriever = build(&files, &contents);
    let stats = retriever.stats();
    let avg_doc_length = stats.total_terms as f64 / stats.total_docs as f64;

    assert_eq!(stats.total_docs, 4);
    assert!(avg_doc_length > 0.0);
    assert!(stats.unique_terms > 10);
}

#[test]
fn test_snippet_generation() {
    let (files, contents) = corpus();
    let retriever = build(&files, &contents);
    let results = search(&retriever, 1.5, 0.75, "conservation", 10);

    assert!(!results.is_empty());
    assert!(!results[0].snippet.is_empty());
}

#[test]
fn test_filters_zero_word_files() {
    let files = vec![
        FileEntry {
            path: "/tmp/test_deckhand/empty.md".to_string(),
            rel_path: "empty.md".to_string(),
            words: 0,
        },
        entry("docs/content.md", "This file has words."),
    ];
    let contents = strings(&["This file has words."]);
    let retriever = build(&files, &contents);
    let stats = retriever.stats();

    assert_eq!(stats.total_docs, 1);
}

#[test]
fn test_custom_bm25_params() {
    let files = vec![entry("docs/test.md", "test test test content")];
    let contents = strings(&["test test test content"]);
    let retriever = build(&files, &contents);
    let results = search(&retriever, 2.0, 0.5, "test", 10);

    assert!(!results.is_empty());
    assert!(results[0].score > 0.0);
}

#[test]
fn test_tokenization() {
    let text = "Hello, World! This is a TEST... with UPPERCASE and lowercase.";
    let files = vec![entry("docs/test.md", text)];
    let contents = strings(&[text]);
    let retriever = build(&files, &contents);
    let results = search(&retriever, 1.5, 0.75, "hello world test", 10);

    assert_eq!(results.len(), 1);
    assert!(results[0].score > 0.0);
}

#[test]
fn tokenize_lowercases_and_splits_on_non_alphanumerics() {
    let tokens = Retriever::tokenize("Hello, World! This is a TEST... with UPPERCASE and lowercase.");
    assert_eq!(
        tokens,
        strings(&["hello", "world", "this", "is", "a", "test", "with", "uppercase", "and", "lowercase"])
    );
    assert_eq!(Retriever::tokenize("edge-first at 12 volts"), strings(&["edge", "first", "at", "12", "volts"]));
    assert!(Retriever::tokenize("").is_empty());
    assert!(Retriever::tokenize(" ,.;-- ").is_empty());
}

#[test]
fn kept_files_drops_entries_without_words() {
    let files = vec![
        entry("a.md", "one two"),
        FileEntry { path: "/x/b.md".to_string(), rel_path: "b.md".to_string(), words: 0 },
        entry("c.md", "three"),
    ];
    let kept = Retriever::kept_files(&files);
    let names: Vec<&str> = kept.iter().map(|f| f.rel_path.as_str()).collect();
    assert_eq!(names, vec!["a.md", "c.md"]);
    assert_eq!(kept[1].words, 1);
}

#[test]
fn stats_count_tokens_and_distinct_terms() {
    let (files, contents) = corpus();
    let retriever = build(&files, &contents);
    let stats = retriever.stats();
    assert_eq!(stats.total_docs, 4);
    assert_eq!(stats.total_terms, 50);
    assert_eq!(stats.unique_terms, 39);
    assert_eq!(retriever.doc_length(0), 13);
    assert_eq!(retriever.doc_length(3), 12);
}

#[test]
fn term_stats_give_document_and_term_frequencies() {
    let (files, contents) = corpus();
    let retriever = build(&files, &contents);
    let terms = strings(&["conservation", "zzz", "the", "the"]);
    assert_eq!(retriever.term_stats(&terms, 0), vec![(2, 1), (0, 0), (4, 1), (4, 1)]);
    assert_eq!(retriever.term_stats(&terms, 2), vec![(2, 0), (0, 0), (4, 2), (4, 2)]);
}

#[test]
fn snippet_takes_context_around_first_match() {
    let (files, contents) = corpus();
    let retriever = build(&files, &contents);
    assert_eq!(retriever.snippet(0, &strings(&["budget"]), 2), "...on a budget...");
    assert_eq!(retriever.snippet(0, &strings(&["law", "budget"]), 1), "...conservation law...");
    assert_eq!(
        retriever.snippet(2, &strings(&["boat"]), 50),
        "...the boat is the reference implementation for edge first thinking at 12 volts..."
    );
    assert_eq!(retriever.snippet(1, &strings(&["budget"]), 50), "");
    assert_eq!(retriever.snippet(0, &strings(&["law"]), 0), "......");
}

#[test]
fn rank_orders_by_key_then_position() {
    assert_eq!(rank(&[5, 9, 5, 1], 3), vec![1, 0, 2]);
    assert_eq!(rank(&[5, 9, 5, 1], 10), vec![1, 0, 2, 3]);
    assert_eq!(rank(&[7, 7, 7], 2), vec![0, 1]);
    assert_eq!(rank(&[3, 1, 2], 0), Vec::<usize>::new());
    assert_eq!(rank(&[], 5), Vec::<usize>::new());
}

#[test]
fn build_index_again_rebuilds_the_same_index() {
    let files = vec![entry("docs/test.md", "test test test content")];
    let contents = strings(&["test test test content"]);
    let mut retriever = build(&files, &contents);
    assert_eq!(retriever.build_index(&contents), Some(4));
    let stats = retriever.stats();
    assert_eq!(stats.total_docs, 1);
    assert_eq!(stats.total_terms, 4);
    assert_eq!(stats.unique_terms, 2);
    assert_eq!(retriever.term_stats(&strings(&["test"]), 0), vec![(1, 3)]);
}

#[test]
fn build_index_replaces_the_documents() {
    let files = vec![entry("x.md", "a a b")];
    let mut retriever = build(&files, &strings(&["a a b"]));
    assert_eq!(retriever.build_index(&strings(&["a a b"])), Some(3));
    let stats = retriever.stats();
    assert_eq!((stats.total_docs, stats.total_terms, stats.unique_terms), (1, 3, 2));
    let results = search(&retriever, 1.5, 0.75, "a", 10);
    assert_eq!(results.len(), 1);
    assert_eq!(results[0].rel_path, "x.md");

    assert_eq!(retriever.build_index(&strings(&["c d"])), Some(2));
    assert_eq!(retriever.term_stats(&strings(&["a", "c"]), 0), vec![(0, 0), (1, 1)]);
    assert_eq!(retriever.stats().unique_terms, 2);
}

#[test]
fn search_hits_rank_and_describe_the_documents() {
    let (files, contents) = corpus();
    let retriever = build(&files, &contents);
    let terms = strings(&["budget", "boat"]);
    let scored = vec![(0, 5), (2, 9), (3, 5)];
    let hits = retriever.search_hits(&terms, &scored, 2);
    assert_eq!(hits.len(), 2);
    assert_eq!(hits[0].position, 1);
    assert_eq!(hits[0].rel_path, "docs/boat.md");
    assert_eq!(hits[0].path, "/tmp/test_deckhand/docs/boat.md");
    assert!(hits[0].snippet.starts_with("...the boat is"));
    assert_eq!(hits[1].position, 0);
    assert_eq!(hits[1].rel_path, "docs/conservation.md");
    assert_eq!(retriever.search_hits(&terms, &scored, 10)[2].snippet, "");
    assert!(retriever.search_hits(&[], &scored, 10).is_empty());
}
