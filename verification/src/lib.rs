//! A multinomial naive Bayes text classifier over discrete string tokens.
//!
//! The classifier is taught labeled documents through [`bayes_classifier::NaiveBayesClassifier::train`],
//! accumulating per-token and per-class occurrence counts, and estimates a
//! relative likelihood for each known class through
//! [`bayes_classifier::NaiveBayesClassifier::analyze`]. Scores are exact
//! rationals; callers compare them to pick the most likely class.

pub mod bayes_classifier;
pub mod text;
