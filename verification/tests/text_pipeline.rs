use recommender::content::{recommend, Document};
use recommender::errors::RecError;
use recommender::fixed::SCALE;
use recommender::text::tokenize;
use recommender::tfidf::{build_vocab, compute_tf};

fn doc(id: &str, content: &str) -> Document {
    Document { id: String::from(id), content: String::from(content) }
}

#[test]
fn tokenize_lowercases_splits_and_trims() {
    let toks = tokenize("**Hello,** World!!  123");
    let expect = vec!["hello", "world", "123"];
    assert_eq!(toks.len(), expect.len());
    for (t, e) in toks.iter().zip(expect.iter()) {
        assert_eq!(t, e);
    }
}

#[test]
fn tokenize_drops_empty_tokens() {
    let toks = tokenize("--- !!! cat ...");
    assert_eq!(toks.len(), 1);
    assert_eq!(toks[0], "cat");
}

#[test]
fn tokenize_is_idempotent_on_clean_text() {
    let first = tokenize("the Quick brown-fox 42!");
    let joined = first.join(" ");
    let second = tokenize(&joined);
    assert_eq!(first, second);
}

#[test]
fn tokenize_empty_input_gives_no_tokens() {
    assert_eq!(tokenize("").len(), 0);
    assert_eq!(tokenize("   \t\n").len(), 0);
}

#[test]
fn compute_tf_exact_values() {
    let tokens: Vec<String> =
        vec![String::from("a"), String::from("b"), String::from("a")];
    let docs = vec![tokens.clone()];
    let vocab = build_vocab(&docs);
    assert_eq!(vocab.len(), 2);
    assert_eq!(vocab[0], "a");
    assert_eq!(vocab[1], "b");
    let tf = compute_tf(&tokens, &vocab);
    assert_eq!(tf[0], 2 * SCALE / 3);
    assert_eq!(tf[1], SCALE / 3);
}

#[test]
fn compute_tf_zero_token_document_is_zero_vector() {
    let tokens: Vec<String> = Vec::new();
    let vocab = vec![String::from("a")];
    let tf = compute_tf(&tokens, &vocab);
    assert_eq!(tf, vec![0]);
}

#[test]
fn recommend_ranks_overlapping_document_first() {
    // corpus = [{a, "cat dog"}, {b, "dog bird"}], query "cat":
    // "a" shares "cat" with the query, "b" has no overlap and scores zero.
    let corpus = vec![doc("a", "cat dog"), doc("b", "dog bird")];
    let out = recommend(&corpus, "cat", 2).unwrap();
    assert_eq!(out.len(), 2);
    assert_eq!(out[0].0, 0);
    assert_eq!(out[1].0, 1);
    assert!(out[0].1 > 0);
    assert_eq!(out[1].1, 0);
}

#[test]
fn recommend_truncates_to_top_n() {
    let corpus = vec![
        doc("a", "alpha beta"),
        doc("b", "beta gamma"),
        doc("c", "gamma delta"),
    ];
    let out = recommend(&corpus, "beta", 2).unwrap();
    assert_eq!(out.len(), 2);
    assert!(out[0].1 >= out[1].1);
    let all = recommend(&corpus, "beta", 10).unwrap();
    assert_eq!(all.len(), 3);
    for w in all.windows(2) {
        assert!(w[0].1 >= w[1].1);
    }
}

#[test]
fn recommend_rejects_blank_query() {
    let corpus = vec![doc("a", "cat dog")];
    assert_eq!(recommend(&corpus, "", 5).unwrap_err(), RecError::EmptyQuery);
    assert_eq!(recommend(&corpus, "  \t ", 5).unwrap_err(), RecError::EmptyQuery);
}

#[test]
fn recommend_with_zero_top_n_is_empty() {
    let corpus = vec![doc("a", "cat dog")];
    let out = recommend(&corpus, "cat", 0).unwrap();
    assert!(out.is_empty());
}

#[test]
fn tokenize_handles_accented_words() {
    let toks = tokenize("CAFÉ naïve");
    assert_eq!(toks.len(), 2);
    assert_eq!(toks[0], "café");
    assert_eq!(toks[1], "naïve");
}
