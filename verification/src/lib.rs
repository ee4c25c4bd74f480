//! Fuzzy file finding: a directory crawler that flattens a tree into
//! candidate entries, and an edit-distance scorer that ranks them
//! against a query.
//!
//! A search is a crawl followed by a scoring pass. [`crawl_subdirs`]
//! begins a crawl, which asks its caller for one directory listing after
//! the other and ends with every file below the root. [`score_all`] sets
//! the score of each file to the [`levenshtein_distance`] between the
//! query and its name, and [`rank_by_score`] puts the best matches first.
//! Nothing is kept from one search to the next.

pub mod candidate;
pub mod crawler;
pub mod distance;
pub mod edits;
pub mod scorer;
pub mod tree;
pub mod trigger;

pub use candidate::CandidateEntry;
pub use crawler::{crawl_subdirs, CrawlError, CrawlReport, CrawlStatus, Crawler, DirEntry, DirRead};
pub use distance::levenshtein_distance;
pub use scorer::{rank_by_score, score_all, score_and_rank, select_matches};
pub use trigger::is_any_key_down;
