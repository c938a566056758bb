//! Upper-bound search of one query across many sorted lists.
//!
//! Two searchers answer the same question: for each of `k` sorted lists, how
//! many of its elements are at most the query. [`naive::NaiveMultiListSearcher`]
//! runs one binary search per list. [`fc_ind::FractionalCascadingMultiListSearcher`]
//! builds a fractional-cascading index once and then answers a query with a
//! single binary search followed by a constant amount of work per list.
//!
//! Both implement [`searcher::MultiListSearcher`], so either can stand in for the
//! other.
//!
//! Keys are `i64`. Double-precision values are brought into that order by
//! [`key::key_from_bits`].
pub mod fc_ind;
pub mod key;
pub mod naive;
pub mod order;
pub mod searcher;
