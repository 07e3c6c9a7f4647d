//! A recommendation library over fixed-point arithmetic.
//!
//! Two independent pipelines share a vector-similarity primitive:
//! ranking text documents against a query by TF-IDF weights and cosine
//! similarity, and item-item collaborative filtering over a user-item
//! rating matrix, with an SGD matrix factorization as an alternative
//! predictor.  All numeric quantities are fixed-point values carrying
//! [`fixed::SCALE`] units per whole unit, so every computation is exact
//! integer arithmetic with proved bounds.

pub mod aggregate;
pub mod content;
pub mod errors;
pub mod factor;
pub mod fixed;
pub mod matrix;
pub mod rank;
pub mod similarity;
pub mod text;
pub mod tfidf;
pub mod vecmath;
