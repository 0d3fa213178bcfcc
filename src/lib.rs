//! Online clustering of near-duplicate articles and propagation of fake
//! verdicts through the clusters.

pub mod document;
pub mod feed;
pub mod interval;
pub mod key;
pub mod models;
pub mod registry;
pub mod scheduler;
pub mod tf;
pub mod vector;
pub mod vocabulary;
