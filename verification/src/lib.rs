//! A small similarity-ranking library.
//!
//! Items ("pages") carry sets of labels ("categories"). A [`engine::Recommender`]
//! holds a bidirectional label/item index; ranking a query label sequence
//! scores each candidate item by an integer overlap coefficient and orders
//! the candidates with the dual-array quicksort of [`sort`].

pub mod engine;
pub mod sort;
