//! Ranking documents against a query by TF-IDF weights and cosine
//! similarity.

use vstd::prelude::*;
use vstd::relations::sorted_by;
use vstd::math::min;
use crate::fixed::{MAX_DIM, MAX_WEIGHT};
use crate::errors::RecError;
use crate::text::{tokenize, tokens_of, lower_of, white, char_is_whitespace};
use crate::tfidf::{compute_tf_idf, weight_of, vocab_of};
use crate::vecmath::{cosine_similarity, cosine_fp};
use crate::rank::{rank_ord, ranked, top_pairs};

verus! {

/// A text document: identity is `id`, similarity is computed over
/// `content`.
pub struct Document {
    pub id: String,
    pub content: String,
}

/// Whether a piece of text is empty or all whitespace.
pub fn is_blank(s: &str) -> (r: bool)
    ensures
        r == (forall|i: int| 0 <= i < s@.len() ==> white(#[trigger] s@[i])),
{
    let n = s.unicode_len();
    let mut i: usize = 0;
    while i < n
        invariant
            n == s@.len(),
            i <= n,
            forall|t: int| 0 <= t < i ==> white(#[trigger] s@[t]),
        decreases n - i,
    {
        let c = s.get_char(i);
        if !char_is_whitespace(c) {
            return false;
        }
        i = i + 1;
    }
    true
}

/// The token lists the recommender works over: the query first, then every
/// document's content, each lower-cased and tokenized.
pub open spec fn corpus_tokens(docs: Seq<Document>, query: Seq<char>) -> Seq<Seq<Seq<char>>> {
    seq![tokens_of(lower_of(query))] + Seq::new(
        docs.len(),
        |d: int| tokens_of(lower_of(docs[d].content@)),
    )
}

/// The TF-IDF weight vector of entry `d` of the combined corpus.
pub open spec fn doc_vector(docss: Seq<Seq<Seq<char>>>, d: int) -> Seq<u64> {
    Seq::new(vocab_of(docss).len(), |w: int| weight_of(docss, d, w) as u64)
}

/// Query-to-document similarity pairs, one per document, in corpus order.
pub open spec fn similarity_pairs(docs: Seq<Document>, query: Seq<char>) -> Seq<(usize, u64)> {
    let docss = corpus_tokens(docs, query);
    Seq::new(
        docs.len(),
        |d: int| (d as usize, cosine_fp(doc_vector(docss, 0), doc_vector(docss, d + 1)) as u64),
    )
}

/// Rank the corpus against a query: the query joins the corpus for one
/// TF-IDF pass, every document is scored by cosine similarity against the
/// query vector, and the `top_n` best come back, scores descending, ties
/// by corpus order.
///
/// A blank query is an input-validation failure; a corpus whose combined
/// vocabulary passes the dimension bound is too large to score.
pub fn recommend(documents: &Vec<Document>, target: &str, top_n: usize) -> (out: Result<
    Vec<(usize, u64)>,
    RecError,
>)
    requires
        documents@.len() < MAX_DIM,
    ensures
        out matches Err(RecError::EmptyQuery) <==> (forall|i: int|
            0 <= i < target@.len() ==> white(#[trigger] target@[i])),
        out matches Err(RecError::TooLarge) <==> (!(forall|i: int|
            0 <= i < target@.len() ==> white(#[trigger] target@[i])) && vocab_of(
            corpus_tokens(documents@, target@),
        ).len() > MAX_DIM),
        out is Ok <==> (!(forall|i: int|
            0 <= i < target@.len() ==> white(#[trigger] target@[i])) && vocab_of(
            corpus_tokens(documents@, target@),
        ).len() <= MAX_DIM),
        out is Ok ==> out->Ok_0@ == ranked(similarity_pairs(documents@, target@)).take(
            min(top_n as int, documents@.len() as int),
        ),
        out is Ok ==> out->Ok_0@.len() == min(top_n as int, documents@.len() as int),
        out is Ok ==> sorted_by(out->Ok_0@, rank_ord()),
{
    if is_blank(target) {
        return Err(RecError::EmptyQuery);
    }
    let ghost docss = corpus_tokens(documents@, target@);
    let n = documents.len();
    let mut docs_tokens: Vec<Vec<String>> = Vec::new();
    let qtoks = tokenize(target);
    docs_tokens.push(qtoks);
    proof {
        assert(docs_tokens.deep_view() =~= docss.take(1));
    }
    let mut d: usize = 0;
    while d < n
        invariant
            docss == corpus_tokens(documents@, target@),
            n == documents@.len(),
            docss.len() == n + 1,
            d <= n,
            docs_tokens.deep_view() =~= docss.take(d + 1),
        decreases n - d,
    {
        let ghost before = docs_tokens.deep_view();
        let toks = tokenize(documents[d].content.as_str());
        docs_tokens.push(toks);
        proof {
            assert(documents@[d as int].content@ == documents[d as int].content@);
            assert(docss[d + 1] == tokens_of(lower_of(documents@[d as int].content@)));
            assert(docs_tokens.deep_view() =~= before.push(docss[d + 1]));
            assert(docs_tokens.deep_view() =~= docss.take(d + 2));
        }
        d = d + 1;
    }
    proof {
        assert(docss.take(n + 1) =~= docss);
        assert(docs_tokens.deep_view() == docss);
        assert(docs_tokens@.len() == docs_tokens.deep_view().len());
    }
    let pair = compute_tf_idf(&docs_tokens);
    let vocab = pair.0;
    let vectors = pair.1;
    if vocab.len() > MAX_DIM {
        proof {
            assert(vocab@.len() == vocab.deep_view().len());
        }
        return Err(RecError::TooLarge);
    }
    proof {
        assert(vocab@.len() == vocab.deep_view().len());
        assert(vocab_of(docss).len() <= MAX_DIM);
        assert forall|a: int| 0 <= a < docss.len() implies #[trigger] vectors@[a]@
            =~= doc_vector(docss, a) by {
            assert(vectors@[a]@.len() == vocab@.len());
        }
    }
    let mut pairs: Vec<(usize, u64)> = Vec::new();
    let mut d: usize = 0;
    while d < n
        invariant
            docss == corpus_tokens(documents@, target@),
            n == documents@.len(),
            docss.len() == n + 1,
            vectors@.len() == n + 1,
            vocab@.len() <= MAX_DIM,
            forall|a: int| 0 <= a < n + 1 ==> #[trigger] vectors@[a]@ == doc_vector(docss, a),
            forall|a: int| 0 <= a < n + 1 ==> #[trigger] vectors@[a]@.len() == vocab@.len(),
            forall|a: int, w: int|
                0 <= a < n + 1 && 0 <= w < vocab@.len() ==> #[trigger] vectors@[a]@[w]
                    <= MAX_WEIGHT,
            d <= n,
            pairs@.len() == d,
            forall|q: int|
                0 <= q < d ==> #[trigger] pairs@[q] == similarity_pairs(documents@, target@)[q],
        decreases n - d,
    {
        let sim = cosine_similarity(&vectors[0], &vectors[d + 1]);
        pairs.push((d, sim));
        d = d + 1;
    }
    proof {
        assert(pairs@ =~= similarity_pairs(documents@, target@));
    }
    let r = top_pairs(pairs, top_n);
    Ok(r)
}

} // verus!
