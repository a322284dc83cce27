//! An undirected, unweighted, simple graph stored as a packed symmetric
//! matrix, with verified structural queries: degree, maximum degree,
//! star detection, neighborhood listing and walk search.

pub mod symmat;
pub mod utgraph;
pub mod models;
