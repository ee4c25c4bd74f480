//! A discovered file and its current similarity score.

use vstd::prelude::*;

verus! {

/// One file found by a crawl.
#[derive(Clone, Debug, PartialEq, Eq)]
pub struct CandidateEntry {
    /// The file's base name: what a query is compared with.
    pub name: String,
    /// Where the file is. Shown, never compared.
    pub full_path: String,
    /// The distance between `name` and the query it was last scored
    /// against; the length of `name` when it has not been scored yet.
    pub score: usize,
}

/// A [`CandidateEntry`] as contracts see it.
pub ghost struct CandidateView {
    pub name: Seq<char>,
    pub full_path: Seq<char>,
    pub score: nat,
}

impl View for CandidateEntry {
    type V = CandidateView;

    open spec fn view(&self) -> CandidateView {
        CandidateView { name: self.name@, full_path: self.full_path@, score: self.score as nat }
    }
}

/// The candidate that a crawl makes of a file before any query is
/// applied: its score is the length of its name, in code points.
pub open spec fn unscored(name: Seq<char>, full_path: Seq<char>) -> CandidateView {
    CandidateView { name, full_path, score: name.len() }
}

/// The views of a sequence of candidates, in order.
pub open spec fn candidate_views(entries: Seq<CandidateEntry>) -> Seq<CandidateView> {
    entries.map_values(|c: CandidateEntry| c@)
}

impl Default for CandidateEntry {
    /// The candidate without a name and without a path.
    fn default() -> (c: CandidateEntry)
        ensures
            c@ == unscored(Seq::empty(), Seq::empty()),
    {
        CandidateEntry { name: String::new(), full_path: String::new(), score: 0 }
    }
}

impl CandidateEntry {
    /// A candidate that has not been compared with any query.
    pub fn new(name: String, full_path: String) -> (c: CandidateEntry)
        ensures
            c@ == unscored(name@, full_path@),
            c.name == name,
            c.full_path == full_path,
    {
        let score: usize = name.as_str().unicode_len();
        CandidateEntry { name, full_path, score }
    }
}

} // verus!
