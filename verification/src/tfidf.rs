//! Term frequency, document frequency, and TF-IDF weight vectors over a
//! shared vocabulary, in fixed point.

use vstd::prelude::*;
use crate::fixed::{
    SCALE, MAX_DIM, MAX_WEIGHT, spec_idf, idf_fixed, lemma_idf_nonneg, lemma_idf_bound,
};

verus! {

/// How often token `t` occurs in a token list.
pub open spec fn count_tok(toks: Seq<Seq<char>>, t: Seq<char>) -> int
    decreases toks.len(),
{
    if toks.len() == 0 {
        0
    } else {
        count_tok(toks.drop_last(), t) + if toks.last() == t {
            1int
        } else {
            0int
        }
    }
}

/// A token occurs at most as often as the list is long.
pub proof fn lemma_count_tok_bounds(toks: Seq<Seq<char>>, t: Seq<char>)
    ensures
        0 <= count_tok(toks, t) <= toks.len(),
    decreases toks.len(),
{
    if toks.len() > 0 {
        lemma_count_tok_bounds(toks.drop_last(), t);
    }
}

proof fn lemma_count_tok_take_succ(toks: Seq<Seq<char>>, t: Seq<char>, q: int)
    requires
        0 <= q < toks.len(),
    ensures
        count_tok(toks.take(q + 1), t) == count_tok(toks.take(q), t) + if toks[q] == t {
            1int
        } else {
            0int
        },
{
    assert(toks.take(q + 1).drop_last() =~= toks.take(q));
}

/// A vocabulary grows by a token only if the token is new.
pub open spec fn add_tok(v: Seq<Seq<char>>, t: Seq<char>) -> Seq<Seq<char>> {
    if v.contains(t) {
        v
    } else {
        v.push(t)
    }
}

/// The vocabulary after folding in the first `k` tokens of one list.
pub open spec fn vocab_toks(v: Seq<Seq<char>>, toks: Seq<Seq<char>>, k: int) -> Seq<Seq<char>>
    decreases k,
{
    if k <= 0 {
        v
    } else {
        add_tok(vocab_toks(v, toks, k - 1), toks[k - 1])
    }
}

/// The vocabulary after folding in the first `d` token lists.
pub open spec fn vocab_docs(v: Seq<Seq<char>>, docss: Seq<Seq<Seq<char>>>, d: int) -> Seq<
    Seq<char>,
>
    decreases d,
{
    if d <= 0 {
        v
    } else {
        let prev = vocab_docs(v, docss, d - 1);
        vocab_toks(prev, docss[d - 1], docss[d - 1].len() as int)
    }
}

/// The combined vocabulary of a document set: every distinct token, in
/// order of first occurrence.
pub open spec fn vocab_of(docss: Seq<Seq<Seq<char>>>) -> Seq<Seq<char>> {
    vocab_docs(Seq::empty(), docss, docss.len() as int)
}

/// In how many of the first `d` documents token `t` occurs (set
/// semantics: multiple occurrences inside one document count once).
pub open spec fn df_of(docss: Seq<Seq<Seq<char>>>, t: Seq<char>, d: int) -> int
    decreases d,
{
    if d <= 0 {
        0
    } else {
        df_of(docss, t, d - 1) + if count_tok(docss[d - 1], t) > 0 {
            1int
        } else {
            0int
        }
    }
}

/// The document frequency never exceeds the number of documents.
pub proof fn lemma_df_bounds(docss: Seq<Seq<Seq<char>>>, t: Seq<char>, d: int)
    requires
        0 <= d <= docss.len(),
    ensures
        0 <= df_of(docss, t, d) <= d,
    decreases d,
{
    if d > 0 {
        lemma_df_bounds(docss, t, d - 1);
    }
}

/// The inverse document frequency of a token, with the defensive default:
/// a missing document frequency counts as one, so the logarithm is always
/// defined.
pub open spec fn idf_of(ndocs: int, df: int) -> int {
    spec_idf(
        ndocs,
        if df < 1 {
            1
        } else {
            df
        },
    )
}

/// The TF-IDF weight of vocabulary word `w` in document `d`: occurrence
/// count times inverse document frequency, divided by the document's token
/// count; a document with no tokens gets a zero vector.
pub open spec fn weight_of(docss: Seq<Seq<Seq<char>>>, d: int, w: int) -> int {
    let vocab = vocab_of(docss);
    let toks = docss[d];
    if toks.len() == 0 {
        0
    } else {
        count_tok(toks, vocab[w]) * idf_of(docss.len() as int, df_of(docss, vocab[w], docss.len() as int))
            / (toks.len() as int)
    }
}

/// Every TF-IDF weight is non-negative and within the weight bound.
pub proof fn lemma_weight_bounds(docss: Seq<Seq<Seq<char>>>, d: int, w: int)
    requires
        0 <= d < docss.len(),
        docss.len() <= MAX_DIM,
    ensures
        0 <= weight_of(docss, d, w) <= MAX_WEIGHT,
{
    let vocab = vocab_of(docss);
    let toks = docss[d];
    if toks.len() == 0 {
    } else {
        let total = toks.len() as int;
        let c = count_tok(toks, vocab[w]);
        let df = df_of(docss, vocab[w], docss.len() as int);
        let dfc = if df < 1 {
            1int
        } else {
            df
        };
        lemma_count_tok_bounds(toks, vocab[w]);
        lemma_df_bounds(docss, vocab[w], docss.len() as int);
        let idf = spec_idf(docss.len() as int, dfc);
        lemma_idf_nonneg(docss.len() as int, dfc);
        lemma_idf_bound(docss.len() as int, dfc);
        assert(0 <= c * idf) by (nonlinear_arith)
            requires
                0 <= c,
                0 <= idf,
        ;
        vstd::arithmetic::div_mod::lemma_div_pos_is_pos(c * idf, total);
        assert(c * idf <= total * idf) by (nonlinear_arith)
            requires
                0 <= c <= total,
                0 <= idf,
        ;
        vstd::arithmetic::div_mod::lemma_div_is_ordered(c * idf, total * idf, total);
        vstd::arithmetic::div_mod::lemma_div_by_multiple(idf, total);
        assert(total * idf == idf * total) by (nonlinear_arith);
    }
}

/// How often `word` occurs among `tokens`, exactly [`count_tok`].
pub fn count_occurrences(tokens: &Vec<String>, word: &String) -> (c: usize)
    ensures
        c as int == count_tok(tokens.deep_view(), word@),
{
    let ghost dv = tokens.deep_view();
    let mut c: usize = 0;
    let mut q: usize = 0;
    proof {
        assert(dv.take(0) =~= Seq::<Seq<char>>::empty());
        lemma_count_tok_bounds(dv, word@);
    }
    while q < tokens.len()
        invariant
            dv == tokens.deep_view(),
            q <= tokens@.len(),
            dv.len() == tokens@.len(),
            c as int == count_tok(dv.take(q as int), word@),
            c <= q,
        decreases tokens@.len() - q,
    {
        proof {
            lemma_count_tok_take_succ(dv, word@, q as int);
            assert(dv[q as int] == tokens@[q as int]@);
        }
        if tokens[q] == *word {
            c = c + 1;
        }
        q = q + 1;
    }
    proof {
        assert(dv.take(tokens@.len() as int) =~= dv);
    }
    c
}

/// Whether the vocabulary already holds `word`.
fn vocab_contains(vocab: &Vec<String>, word: &String) -> (r: bool)
    ensures
        r == vocab.deep_view().contains(word@),
{
    let ghost dv = vocab.deep_view();
    let mut q: usize = 0;
    while q < vocab.len()
        invariant
            dv == vocab.deep_view(),
            q <= vocab@.len(),
            dv.len() == vocab@.len(),
            forall|t: int| 0 <= t < q ==> dv[t] != word@,
        decreases vocab@.len() - q,
    {
        proof {
            assert(dv[q as int] == vocab@[q as int]@);
        }
        if vocab[q] == *word {
            proof {
                assert(dv.contains(word@));
            }
            return true;
        }
        q = q + 1;
    }
    proof {
        assert forall|t: int| 0 <= t < dv.len() implies dv[t] != word@ by {}
    }
    false
}

/// The combined vocabulary of tokenized documents: every distinct token,
/// in order of first occurrence, exactly [`vocab_of`].
pub fn build_vocab(docs_tokens: &Vec<Vec<String>>) -> (vocab: Vec<String>)
    ensures
        vocab.deep_view() == vocab_of(docs_tokens.deep_view()),
{
    let ghost docss = docs_tokens.deep_view();
    let mut vocab: Vec<String> = Vec::new();
    let mut d: usize = 0;
    while d < docs_tokens.len()
        invariant
            docss == docs_tokens.deep_view(),
            d <= docs_tokens@.len(),
            docss.len() == docs_tokens@.len(),
            vocab.deep_view() == vocab_docs(Seq::empty(), docss, d as int),
        decreases docs_tokens@.len() - d,
    {
        let ghost base = vocab.deep_view();
        let doc = &docs_tokens[d];
        proof {
            assert(docss[d as int] == docs_tokens@[d as int].deep_view());
        }
        let mut k: usize = 0;
        while k < doc.len()
            invariant
                docss == docs_tokens.deep_view(),
                d < docs_tokens@.len(),
                docss.len() == docs_tokens@.len(),
                doc == docs_tokens@[d as int],
                k <= doc@.len(),
                docss[d as int].len() == doc@.len(),
                vocab.deep_view() == vocab_toks(base, docss[d as int], k as int),
            decreases doc@.len() - k,
        {
            let word = &doc[k];
            proof {
                assert(docss[d as int][k as int] == doc@[k as int]@);
            }
            let present = vocab_contains(&vocab, word);
            if !present {
                let ghost before = vocab.deep_view();
                let owned = word.clone();
                proof {
                    assert(owned@ == word@);
                }
                vocab.push(owned);
                proof {
                    assert(vocab.deep_view() =~= before.push(word@));
                }
            }
            k = k + 1;
        }
        d = d + 1;
    }
    vocab
}

/// The scaled term-frequency vector of one tokenized document over a
/// vocabulary: occurrence count times the scale, divided by the token
/// count; a document with no tokens gets the zero vector.
pub open spec fn tf_of(toks: Seq<Seq<char>>, vocab: Seq<Seq<char>>, w: int) -> int {
    if toks.len() == 0 {
        0
    } else {
        count_tok(toks, vocab[w]) * SCALE / (toks.len() as int)
    }
}

/// The term-frequency vector of one document, exactly [`tf_of`] at each
/// vocabulary word, each entry at most one (the scale).
pub fn compute_tf(tokens: &Vec<String>, vocab: &Vec<String>) -> (tf: Vec<u64>)
    ensures
        tf@.len() == vocab@.len(),
        forall|w: int|
            0 <= w < vocab@.len() ==> #[trigger] tf@[w] as int == tf_of(
                tokens.deep_view(),
                vocab.deep_view(),
                w,
            ),
        forall|w: int| 0 <= w < vocab@.len() ==> #[trigger] tf@[w] <= SCALE,
{
    let ghost toks = tokens.deep_view();
    let ghost vdv = vocab.deep_view();
    let total = tokens.len();
    let mut tf: Vec<u64> = Vec::new();
    let mut w: usize = 0;
    while w < vocab.len()
        invariant
            toks == tokens.deep_view(),
            vdv == vocab.deep_view(),
            total == tokens@.len(),
            toks.len() == total,
            vdv.len() == vocab@.len(),
            w <= vocab@.len(),
            tf@.len() == w,
            forall|t: int| 0 <= t < w ==> #[trigger] tf@[t] as int == tf_of(toks, vdv, t),
            forall|t: int| 0 <= t < w ==> #[trigger] tf@[t] <= SCALE,
        decreases vocab@.len() - w,
    {
        proof {
            assert(vdv[w as int] == vocab@[w as int]@);
        }
        if total == 0 {
            tf.push(0);
        } else {
            let c = count_occurrences(tokens, &vocab[w]);
            proof {
                lemma_count_tok_bounds(toks, vdv[w as int]);
                assert((c as int) * (SCALE as int) <= (total as int) * (SCALE as int))
                    by (nonlinear_arith)
                    requires
                        0 <= c <= total,
                ;
                vstd::arithmetic::div_mod::lemma_div_pos_is_pos(
                    (c as int) * (SCALE as int),
                    total as int,
                );
                vstd::arithmetic::div_mod::lemma_div_is_ordered(
                    (c as int) * (SCALE as int),
                    (total as int) * (SCALE as int),
                    total as int,
                );
                vstd::arithmetic::div_mod::lemma_div_by_multiple(SCALE as int, total as int);
                assert((total as int) * (SCALE as int) == (SCALE as int) * (total as int))
                    by (nonlinear_arith);
            }
            let v = (((c as u128) * (SCALE as u128)) / (total as u128)) as u64;
            tf.push(v);
        }
        w = w + 1;
    }
    tf
}

/// The TF-IDF weight vectors of a set of tokenized documents over their
/// combined vocabulary, exactly [`weight_of`] at each document and word.
pub fn compute_tf_idf(docs_tokens: &Vec<Vec<String>>) -> (out: (Vec<String>, Vec<Vec<u64>>))
    requires
        docs_tokens@.len() <= MAX_DIM,
    ensures
        out.0.deep_view() == vocab_of(docs_tokens.deep_view()),
        out.1@.len() == docs_tokens@.len(),
        forall|d: int| 0 <= d < docs_tokens@.len() ==> #[trigger] out.1@[d]@.len() == out.0@.len(),
        forall|d: int, w: int|
            0 <= d < docs_tokens@.len() && 0 <= w < out.0@.len() ==> #[trigger] out.1@[d]@[w] as int
                == weight_of(docs_tokens.deep_view(), d, w),
        forall|d: int, w: int|
            0 <= d < docs_tokens@.len() && 0 <= w < out.0@.len() ==> #[trigger] out.1@[d]@[w]
                <= MAX_WEIGHT,
{
    let ghost docss = docs_tokens.deep_view();
    let ndocs = docs_tokens.len();
    let vocab = build_vocab(docs_tokens);
    let ghost vdv = vocab.deep_view();
    proof {
        assert(vdv.len() == vocab@.len());
    }
    let mut dfs: Vec<u64> = Vec::new();
    let mut w: usize = 0;
    while w < vocab.len()
        invariant
            docss == docs_tokens.deep_view(),
            vdv == vocab.deep_view(),
            vdv == vocab_of(docss),
            ndocs == docs_tokens@.len(),
            docss.len() == ndocs,
            ndocs <= MAX_DIM,
            vdv.len() == vocab@.len(),
            w <= vocab@.len(),
            dfs@.len() == w,
            forall|t: int|
                0 <= t < w ==> #[trigger] dfs@[t] as int == df_of(docss, vdv[t], ndocs as int),
        decreases vocab@.len() - w,
    {
        proof {
            assert(vdv[w as int] == vocab@[w as int]@);
        }
        let mut count: u64 = 0;
        let mut d: usize = 0;
        while d < ndocs
            invariant
                docss == docs_tokens.deep_view(),
                vdv == vocab.deep_view(),
                vdv == vocab_of(docss),
                ndocs == docs_tokens@.len(),
                docss.len() == ndocs,
                ndocs <= MAX_DIM,
                w < vocab@.len(),
                vdv.len() == vocab@.len(),
                vdv[w as int] == vocab@[w as int]@,
                d <= ndocs,
                count as int == df_of(docss, vdv[w as int], d as int),
                count <= d,
            decreases ndocs - d,
        {
            proof {
                assert(docss[d as int] == docs_tokens@[d as int].deep_view());
            }
            let c = count_occurrences(&docs_tokens[d], &vocab[w]);
            if c > 0 {
                count = count + 1;
            }
            d = d + 1;
        }
        dfs.push(count);
        w = w + 1;
    }
    let mut vectors: Vec<Vec<u64>> = Vec::new();
    let mut d: usize = 0;
    while d < ndocs
        invariant
            docss == docs_tokens.deep_view(),
            vdv == vocab.deep_view(),
            vdv == vocab_of(docss),
            ndocs == docs_tokens@.len(),
            docss.len() == ndocs,
            ndocs <= MAX_DIM,
            vdv.len() == vocab@.len(),
            dfs@.len() == vocab@.len(),
            forall|t: int|
                0 <= t < vocab@.len() ==> #[trigger] dfs@[t] as int == df_of(
                    docss,
                    vdv[t],
                    ndocs as int,
                ),
            d <= ndocs,
            vectors@.len() == d,
            forall|a: int| 0 <= a < d ==> #[trigger] vectors@[a]@.len() == vocab@.len(),
            forall|a: int, t: int|
                0 <= a < d && 0 <= t < vocab@.len() ==> #[trigger] vectors@[a]@[t] as int
                    == weight_of(docss, a, t),
            forall|a: int, t: int|
                0 <= a < d && 0 <= t < vocab@.len() ==> #[trigger] vectors@[a]@[t] <= MAX_WEIGHT,
        decreases ndocs - d,
    {
        let tokens = &docs_tokens[d];
        proof {
            assert(docss[d as int] == docs_tokens@[d as int].deep_view());
        }
        let total = tokens.len();
        let mut vec_d: Vec<u64> = Vec::new();
        let mut w: usize = 0;
        while w < vocab.len()
            invariant
                docss == docs_tokens.deep_view(),
                vdv == vocab.deep_view(),
                vdv == vocab_of(docss),
                ndocs == docs_tokens@.len(),
                docss.len() == ndocs,
                ndocs <= MAX_DIM,
                d < ndocs,
                tokens == docs_tokens@[d as int],
                docss[d as int] == docs_tokens@[d as int].deep_view(),
                total == tokens@.len(),
                docss[d as int].len() == total,
                vdv.len() == vocab@.len(),
                dfs@.len() == vocab@.len(),
                forall|t: int|
                    0 <= t < vocab@.len() ==> #[trigger] dfs@[t] as int == df_of(
                        docss,
                        vdv[t],
                        ndocs as int,
                    ),
                w <= vocab@.len(),
                vec_d@.len() == w,
                forall|t: int|
                    0 <= t < w ==> #[trigger] vec_d@[t] as int == weight_of(docss, d as int, t),
                forall|t: int| 0 <= t < w ==> #[trigger] vec_d@[t] <= MAX_WEIGHT,
            decreases vocab@.len() - w,
        {
            proof {
                assert(vdv[w as int] == vocab@[w as int]@);
                lemma_weight_bounds(docss, d as int, w as int);
            }
            if total == 0 {
                vec_d.push(0);
            } else {
                let c = count_occurrences(tokens, &vocab[w]);
                let dfw = dfs[w];
                let dfc: u64 = if dfw < 1 {
                    1
                } else {
                    dfw
                };
                proof {
                    lemma_df_bounds(docss, vdv[w as int], ndocs as int);
                    assert(1 <= dfc <= ndocs);
                    assert(ndocs <= MAX_WEIGHT);
                }
                let idf = idf_fixed(ndocs as u64, dfc);
                proof {
                    lemma_count_tok_bounds(docss[d as int], vdv[w as int]);
                    assert((c as int) * (idf as int) <= (total as int) * (idf as int))
                        by (nonlinear_arith)
                        requires
                            0 <= c <= total,
                            0 <= idf,
                    ;
                    vstd::arithmetic::div_mod::lemma_div_pos_is_pos(
                        (c as int) * (idf as int),
                        total as int,
                    );
                    vstd::arithmetic::div_mod::lemma_div_is_ordered(
                        (c as int) * (idf as int),
                        (total as int) * (idf as int),
                        total as int,
                    );
                    vstd::arithmetic::div_mod::lemma_div_by_multiple(idf as int, total as int);
                    assert((total as int) * (idf as int) == (idf as int) * (total as int))
                        by (nonlinear_arith);
                    assert((c as int) * (idf as int) < 0x100000000000000000000000000000000)
                        by (nonlinear_arith)
                        requires
                            0 <= c <= 0xFFFFFFFFFFFFFFFF,
                            0 <= idf <= 0xFFFFFFFF,
                    ;
                }
                let prod: u128 = (c as u128) * (idf as u128);
                let q128: u128 = prod / (total as u128);
                proof {
                    assert(prod as int == (c as int) * (idf as int)) by (nonlinear_arith)
                        requires
                            0 <= c,
                            0 <= idf,
                            prod as int == (c as u128) as int * ((idf as u128) as int),
                    ;
                    assert(q128 as int == (c as int) * (idf as int) / (total as int));
                    assert(q128 as int <= idf as int);
                    assert(q128 as int == weight_of(docss, d as int, w as int));
                }
                let v = q128 as u64;
                vec_d.push(v);
            }
            w = w + 1;
        }
        vectors.push(vec_d);
        d = d + 1;
    }
    (vocab, vectors)
}

} // verus!
