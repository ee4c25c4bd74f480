//! The crawl of a directory tree.
//!
//! Reading directories is left to the caller. A [`Crawler`] names the one
//! directory whose listing it needs next; handed that listing, it takes in
//! every file up to the next subdirectory and asks for that one in turn.
//! The files come out in listing order, each subdirectory's files in the
//! place where the subdirectory stood.

use crate::candidate::{candidate_views, unscored, CandidateEntry, CandidateView};
use vstd::prelude::*;

verus! {

/// One entry of a directory listing.
#[derive(Clone, Debug, PartialEq, Eq)]
pub struct DirEntry {
    /// The entry's base name, or `None` where it cannot be written as text.
    pub name: Option<String>,
    /// The entry's path.
    pub full_path: String,
    /// Whether the entry is a directory. Anything else counts as a file.
    pub is_dir: bool,
}

/// A [`DirEntry`] as contracts see it.
pub ghost struct EntryView {
    pub name: Option<Seq<char>>,
    pub full_path: Seq<char>,
    pub is_dir: bool,
}

impl View for DirEntry {
    type V = EntryView;

    open spec fn view(&self) -> EntryView {
        EntryView {
            name: match self.name {
                Some(n) => Some(n@),
                None => None,
            },
            full_path: self.full_path@,
            is_dir: self.is_dir,
        }
    }
}

/// The views of a listing's entries, in order.
pub open spec fn entry_views(entries: Seq<DirEntry>) -> Seq<EntryView> {
    entries.map_values(|e: DirEntry| e@)
}

/// The views of some strings, in order.
pub open spec fn text_views(texts: Seq<String>) -> Seq<Seq<char>> {
    texts.map_values(|t: String| t@)
}

/// What came of reading one directory.
#[derive(Clone, Debug, PartialEq, Eq)]
pub enum DirRead {
    /// The directory was listed. `identity` names the directory itself,
    /// whatever path led to it: two paths to one directory give the same
    /// identity.
    Listed { identity: String, entries: Vec<DirEntry> },
    /// Nothing exists at the path.
    Missing,
    /// The path leads to something that is no directory.
    NotADirectory,
    /// The directory is there and could not be listed.
    Unreadable,
}

/// A [`DirRead`] as contracts see it.
pub ghost enum ReadView {
    Listed { identity: Seq<char>, entries: Seq<EntryView> },
    Missing,
    NotADirectory,
    Unreadable,
}

impl View for DirRead {
    type V = ReadView;

    open spec fn view(&self) -> ReadView {
        match self {
            DirRead::Listed { identity, entries } => ReadView::Listed {
                identity: identity@,
                entries: entry_views(entries@),
            },
            DirRead::Missing => ReadView::Missing,
            DirRead::NotADirectory => ReadView::NotADirectory,
            DirRead::Unreadable => ReadView::Unreadable,
        }
    }
}

/// Why a crawl failed. Each error carries the path that it is about.
#[derive(Clone, Debug, PartialEq, Eq)]
pub enum CrawlError {
    /// The root or a directory below it could not be listed.
    DirectoryUnreadable(String),
    /// The root does not exist or is no directory.
    InvalidPath(String),
}

/// A [`CrawlError`] as contracts see it.
pub ghost enum ErrorView {
    DirectoryUnreadable(Seq<char>),
    InvalidPath(Seq<char>),
}

impl View for CrawlError {
    type V = ErrorView;

    open spec fn view(&self) -> ErrorView {
        match self {
            CrawlError::DirectoryUnreadable(path) => ErrorView::DirectoryUnreadable(path@),
            CrawlError::InvalidPath(path) => ErrorView::InvalidPath(path@),
        }
    }
}

/// What a finished crawl found.
#[derive(Clone, Debug, PartialEq, Eq)]
pub struct CrawlReport {
    /// The files, in the order the crawl met them.
    pub candidates: Vec<CandidateEntry>,
    /// The paths of the files that were left out because their names
    /// cannot be written as text.
    pub skipped: Vec<String>,
}

/// A [`CrawlReport`] as contracts see it.
pub ghost struct ReportView {
    pub candidates: Seq<CandidateView>,
    pub skipped: Seq<Seq<char>>,
}

impl View for CrawlReport {
    type V = ReportView;

    open spec fn view(&self) -> ReportView {
        ReportView {
            candidates: candidate_views(self.candidates@),
            skipped: text_views(self.skipped@),
        }
    }
}

/// A crawl that waits for the listing of one directory.
#[derive(Debug)]
pub struct Crawler {
    awaiting: String,
    at_root: bool,
    // The entries still to be looked at, the next one last.
    pending: Vec<DirEntry>,
    visited: Vec<String>,
    found: Vec<CandidateEntry>,
    skipped: Vec<String>,
}

/// A [`Crawler`] as contracts see it: the state of a crawl that waits
/// for a listing.
pub ghost struct CrawlModel {
    /// The path of the directory whose listing is needed.
    pub awaiting: Seq<char>,
    /// Whether that directory is the root of the crawl.
    pub at_root: bool,
    /// The entries still to be looked at, the next one first.
    pub todo: Seq<EntryView>,
    /// The identities of the directories listed so far.
    pub visited: Seq<Seq<char>>,
    /// The candidates found so far.
    pub found: Seq<CandidateView>,
    /// The paths skipped so far.
    pub skipped: Seq<Seq<char>>,
}

/// Where a crawl stands after a listing was handed in.
#[derive(Debug)]
pub enum CrawlStatus {
    /// The crawl goes on, and waits for another listing.
    NeedsListing(Crawler),
    /// Every directory was listed.
    Finished(CrawlReport),
    /// A directory could not be listed. The crawl ends here.
    Failed(CrawlError),
}

/// A [`CrawlStatus`] as contracts see it.
pub ghost enum StatusView {
    NeedsListing(CrawlModel),
    Finished(ReportView),
    Failed(ErrorView),
}

impl View for CrawlStatus {
    type V = StatusView;

    open spec fn view(&self) -> StatusView {
        match self {
            CrawlStatus::NeedsListing(crawler) => StatusView::NeedsListing(crawler@),
            CrawlStatus::Finished(report) => StatusView::Finished(report@),
            CrawlStatus::Failed(error) => StatusView::Failed(error@),
        }
    }
}

spec fn model_of(
    awaiting: Seq<char>,
    at_root: bool,
    pending: Seq<DirEntry>,
    visited: Seq<String>,
    found: Seq<CandidateEntry>,
    skipped: Seq<String>,
) -> CrawlModel {
    CrawlModel {
        awaiting,
        at_root,
        todo: entry_views(pending.reverse()),
        visited: text_views(visited),
        found: candidate_views(found),
        skipped: text_views(skipped),
    }
}

impl View for Crawler {
    type V = CrawlModel;

    closed spec fn view(&self) -> CrawlModel {
        model_of(
            self.awaiting@,
            self.at_root,
            self.pending@,
            self.visited@,
            self.found@,
            self.skipped@,
        )
    }
}

impl CrawlModel {
    /// The crawl of `root` before anything was listed.
    pub open spec fn start(root: Seq<char>) -> CrawlModel {
        CrawlModel {
            awaiting: root,
            at_root: true,
            todo: Seq::empty(),
            visited: Seq::empty(),
            found: Seq::empty(),
            skipped: Seq::empty(),
        }
    }

    /// Looks at the entries still to do, the first one first, up to the
    /// next directory. A file with a name becomes a candidate with the
    /// score of one that was never compared; the path of a file without
    /// one is noted as skipped. At a directory the crawl waits for its
    /// listing; with no entry left it is finished.
    pub open spec fn settle(self) -> StatusView
        decreases self.todo.len(),
    {
        if self.todo.len() == 0 {
            StatusView::Finished(ReportView { candidates: self.found, skipped: self.skipped })
        } else {
            let entry = self.todo.first();
            let rest = self.todo.drop_first();
            if entry.is_dir {
                StatusView::NeedsListing(
                    CrawlModel { awaiting: entry.full_path, at_root: false, todo: rest, ..self },
                )
            } else {
                match entry.name {
                    Some(name) => CrawlModel {
                        todo: rest,
                        found: self.found.push(unscored(name, entry.full_path)),
                        ..self
                    }.settle(),
                    None => CrawlModel {
                        todo: rest,
                        skipped: self.skipped.push(entry.full_path),
                        ..self
                    }.settle(),
                }
            }
        }
    }

    /// The error that ends the crawl when the awaited directory could not
    /// be listed. Only the root can be an invalid path: a directory below
    /// it was seen in a listing, so if it is gone or no directory by now,
    /// it counts as unreadable.
    pub open spec fn failure(self, read: ReadView) -> ErrorView {
        if self.at_root && (read is Missing || read is NotADirectory) {
            ErrorView::InvalidPath(self.awaiting)
        } else {
            ErrorView::DirectoryUnreadable(self.awaiting)
        }
    }

    /// The crawl after `read` was handed in for the awaited directory.
    ///
    /// The entries of a directory that is listed for the first time go
    /// before those still to do. A directory that was listed before, under
    /// whatever path, adds nothing. Any other outcome ends the crawl.
    pub open spec fn advance(self, read: ReadView) -> StatusView {
        match read {
            ReadView::Listed { identity, entries } => {
                if self.visited.contains(identity) {
                    self.settle()
                } else {
                    CrawlModel {
                        todo: entries + self.todo,
                        visited: self.visited.push(identity),
                        ..self
                    }.settle()
                }
            },
            _ => StatusView::Failed(self.failure(read)),
        }
    }
}

impl StatusView {
    /// The candidates that the crawl holds at this point: none once it
    /// has failed.
    pub open spec fn found(self) -> Seq<CandidateView> {
        match self {
            StatusView::NeedsListing(crawl) => crawl.found,
            StatusView::Finished(report) => report.candidates,
            StatusView::Failed(_) => Seq::empty(),
        }
    }

    /// The identities of the directories listed so far, while the crawl
    /// goes on.
    pub open spec fn visited(self) -> Seq<Seq<char>> {
        match self {
            StatusView::NeedsListing(crawl) => crawl.visited,
            _ => Seq::empty(),
        }
    }
}

/// Whether `c` is the fresh candidate of one of `entries` that is a file
/// with a name.
pub open spec fn came_from_file(entries: Seq<EntryView>, c: CandidateView) -> bool {
    exists|j: int|
        0 <= j < entries.len() && !(#[trigger] entries[j]).is_dir && entries[j].name == Some(
            c.name,
        ) && entries[j].full_path == c.full_path && c.score == c.name.len()
}

/// Settling never fails, keeps every candidate found before, and adds
/// only candidates made of files among the entries still to do: never one
/// made of a directory.
pub proof fn lemma_settle_finds_only_files(crawl: CrawlModel)
    ensures
        !(crawl.settle() is Failed),
        crawl.found.is_prefix_of(crawl.settle().found()),
        forall|i: int|
            crawl.found.len() <= i < crawl.settle().found().len() ==> came_from_file(
                crawl.todo,
                #[trigger] crawl.settle().found()[i],
            ),
    decreases crawl.todo.len(),
{
    if crawl.todo.len() > 0 {
        let entry = crawl.todo.first();
        let rest = crawl.todo.drop_first();
        if !entry.is_dir {
            let next = match entry.name {
                Some(name) => CrawlModel {
                    todo: rest,
                    found: crawl.found.push(unscored(name, entry.full_path)),
                    ..crawl
                },
                None => CrawlModel {
                    todo: rest,
                    skipped: crawl.skipped.push(entry.full_path),
                    ..crawl
                },
            };
            lemma_settle_finds_only_files(next);
            let end = crawl.settle().found();
            assert(end == next.settle().found());
            assert forall|i: int| crawl.found.len() <= i < end.len() implies came_from_file(
                crawl.todo,
                #[trigger] end[i],
            ) by {
                if i < next.found.len() {
                    assert(end[i] == next.found[i]);
                    assert(crawl.todo[0] == entry);
                } else {
                    assert(came_from_file(rest, end[i]));
                    let j = choose|j: int|
                        0 <= j < rest.len() && !(#[trigger] rest[j]).is_dir && rest[j].name
                            == Some(end[i].name) && rest[j].full_path == end[i].full_path
                            && end[i].score == end[i].name.len();
                    assert(crawl.todo[j + 1] == rest[j]);
                }
            }
        }
    }
}

/// A listing that is handed in keeps the crawl going or finishes it, and
/// every other outcome fails it with the error of the awaited path. What
/// was found before stays, and what is added is made of files of the
/// listing or of the entries that were still to do.
pub proof fn lemma_advance_finds_only_files(crawl: CrawlModel, read: ReadView)
    ensures
        read is Listed <==> !(crawl.advance(read) is Failed),
        !(read is Listed) ==> crawl.advance(read) == StatusView::Failed(crawl.failure(read)),
        read matches ReadView::Listed { entries, .. } ==> {
            &&& crawl.found.is_prefix_of(crawl.advance(read).found())
            &&& forall|i: int|
                crawl.found.len() <= i < crawl.advance(read).found().len() ==> came_from_file(
                    entries + crawl.todo,
                    #[trigger] crawl.advance(read).found()[i],
                )
        },
{
    match read {
        ReadView::Listed { identity, entries } => {
            if crawl.visited.contains(identity) {
                lemma_settle_finds_only_files(crawl);
                let end = crawl.settle().found();
                assert forall|i: int| crawl.found.len() <= i < end.len() implies came_from_file(
                    entries + crawl.todo,
                    #[trigger] end[i],
                ) by {
                    let j = choose|j: int|
                        0 <= j < crawl.todo.len() && !(#[trigger] crawl.todo[j]).is_dir
                            && crawl.todo[j].name == Some(end[i].name) && crawl.todo[j].full_path
                            == end[i].full_path && end[i].score == end[i].name.len();
                    assert((entries + crawl.todo)[entries.len() + j] == crawl.todo[j]);
                }
            } else {
                lemma_settle_finds_only_files(
                    CrawlModel {
                        todo: entries + crawl.todo,
                        visited: crawl.visited.push(identity),
                        ..crawl
                    },
                );
            }
        },
        _ => {},
    }
}

/// Settling lists no directory.
pub proof fn lemma_settle_keeps_visited(crawl: CrawlModel)
    ensures
        crawl.settle() matches StatusView::NeedsListing(next) ==> next.visited == crawl.visited,
    decreases crawl.todo.len(),
{
    if crawl.todo.len() > 0 {
        let entry = crawl.todo.first();
        let rest = crawl.todo.drop_first();
        if !entry.is_dir {
            match entry.name {
                Some(name) => lemma_settle_keeps_visited(
                    CrawlModel {
                        todo: rest,
                        found: crawl.found.push(unscored(name, entry.full_path)),
                        ..crawl
                    },
                ),
                None => lemma_settle_keeps_visited(
                    CrawlModel {
                        todo: rest,
                        skipped: crawl.skipped.push(entry.full_path),
                        ..crawl
                    },
                ),
            }
        }
    }
}

/// No directory is taken in twice: while the crawl goes on, the
/// directories listed so far are distinct, and the one just listed is
/// among them.
pub proof fn lemma_advance_visits_once(crawl: CrawlModel, read: ReadView)
    requires
        crawl.visited.no_duplicates(),
    ensures
        crawl.advance(read).visited().no_duplicates(),
        read matches ReadView::Listed { identity, .. } ==> (crawl.advance(read)
            matches StatusView::NeedsListing(next) ==> next.visited.contains(identity)),
{
    match read {
        ReadView::Listed { identity, entries } => {
            if crawl.visited.contains(identity) {
                lemma_settle_keeps_visited(crawl);
            } else {
                let grown = crawl.visited.push(identity);
                lemma_settle_keeps_visited(
                    CrawlModel { todo: entries + crawl.todo, visited: grown, ..crawl },
                );
                assert(grown[crawl.visited.len() as int] == identity);
                assert(grown.no_duplicates()) by {
                    assert forall|i: int, j: int|
                        0 <= i < grown.len() && 0 <= j < grown.len() && i != j implies grown[i]
                        != grown[j] by {
                        if i < crawl.visited.len() && j < crawl.visited.len() {
                        } else if i < crawl.visited.len() {
                            assert(crawl.visited[i] == grown[i]);
                        } else {
                            assert(crawl.visited[j] == grown[j]);
                        }
                    }
                }
            }
        },
        _ => {},
    }
}

/// The number of directories among `entries`.
pub open spec fn directories_in(entries: Seq<EntryView>) -> nat
    decreases entries.len(),
{
    if entries.len() == 0 {
        0
    } else if entries.first().is_dir {
        1 + directories_in(entries.drop_first())
    } else {
        directories_in(entries.drop_first())
    }
}

proof fn lemma_directories_in_both(a: Seq<EntryView>, b: Seq<EntryView>)
    ensures
        directories_in(a + b) == directories_in(a) + directories_in(b),
    decreases a.len(),
{
    if a.len() == 0 {
        assert(a + b =~= b);
    } else {
        assert((a + b).first() == a.first());
        assert((a + b).drop_first() =~= a.drop_first() + b);
        lemma_directories_in_both(a.drop_first(), b);
    }
}

/// Settling goes on to the first directory still to do, and finishes
/// where there is none.
pub proof fn lemma_settle_uses_one_directory(crawl: CrawlModel)
    ensures
        match crawl.settle() {
            StatusView::NeedsListing(next) => directories_in(next.todo) + 1 == directories_in(
                crawl.todo,
            ),
            StatusView::Finished(_) => directories_in(crawl.todo) == 0,
            StatusView::Failed(_) => false,
        },
    decreases crawl.todo.len(),
{
    if crawl.todo.len() > 0 {
        let entry = crawl.todo.first();
        let rest = crawl.todo.drop_first();
        if !entry.is_dir {
            match entry.name {
                Some(name) => lemma_settle_uses_one_directory(
                    CrawlModel {
                        todo: rest,
                        found: crawl.found.push(unscored(name, entry.full_path)),
                        ..crawl
                    },
                ),
                None => lemma_settle_uses_one_directory(
                    CrawlModel {
                        todo: rest,
                        skipped: crawl.skipped.push(entry.full_path),
                        ..crawl
                    },
                ),
            }
        }
    }
}

/// Every listing that is handed in uses up one of the directories still
/// to do, and only a directory that is listed for the first time adds
/// any. So a link that leads back into the tree cannot keep a crawl
/// going: what it leads to adds nothing.
pub proof fn lemma_advance_uses_one_directory(crawl: CrawlModel, read: ReadView)
    requires
        read is Listed,
    ensures
        match crawl.advance(read) {
            StatusView::NeedsListing(next) => directories_in(next.todo) + 1 == directories_in(
                crawl.todo,
            ) + if crawl.visited.contains(read->identity) {
                0
            } else {
                directories_in(read->entries)
            },
            StatusView::Finished(_) => directories_in(crawl.todo) == 0,
            StatusView::Failed(_) => false,
        },
{
    if crawl.visited.contains(read->identity) {
        lemma_settle_uses_one_directory(crawl);
    } else {
        lemma_directories_in_both(read->entries, crawl.todo);
        lemma_settle_uses_one_directory(
            CrawlModel {
                todo: read->entries + crawl.todo,
                visited: crawl.visited.push(read->identity),
                ..crawl
            },
        );
    }
}

fn is_listed(visited: &Vec<String>, identity: &String) -> (listed: bool)
    ensures
        listed == text_views(visited@).contains(identity@),
{
    let mut i: usize = 0;
    while i < visited.len()
        invariant
            i <= visited.len(),
            forall|k: int| 0 <= k < i ==> text_views(visited@)[k] != identity@,
        decreases visited.len() - i,
    {
        if visited[i] == *identity {
            assert(text_views(visited@)[i as int] == identity@);
            return true;
        }
        i = i + 1;
    }
    false
}

fn push_reversed(pending: &mut Vec<DirEntry>, entries: Vec<DirEntry>)
    ensures
        final(pending)@ == old(pending)@ + entries@.reverse(),
{
    let ghost listing = entries@;
    let mut entries = entries;
    while entries.len() > 0
        invariant
            entries.len() <= listing.len(),
            entries@ == listing.take(entries.len() as int),
            pending@ == old(pending)@ + listing.skip(entries.len() as int).reverse(),
        decreases entries.len(),
    {
        let ghost n = entries.len() as int;
        match entries.pop() {
            Some(entry) => {
                pending.push(entry);
                assert(listing.skip(n - 1).reverse() =~= listing.skip(n).reverse().push(
                    listing[n - 1],
                ));
            },
            None => {},
        }
    }
    assert(listing.skip(0) =~= listing);
}

/// Begins the crawl of the directory `cur_dir`: the crawl waits for the
/// listing of `cur_dir` itself.
pub fn crawl_subdirs(cur_dir: String) -> (crawler: Crawler)
    ensures
        crawler@ == CrawlModel::start(cur_dir@),
{
    let crawler = Crawler {
        awaiting: cur_dir,
        at_root: true,
        pending: Vec::new(),
        visited: Vec::new(),
        found: Vec::new(),
        skipped: Vec::new(),
    };
    assert(crawler@ =~= CrawlModel::start(cur_dir@)) by {
        assert(crawler@.todo =~= Seq::<EntryView>::empty());
        assert(crawler@.visited =~= Seq::<Seq<char>>::empty());
        assert(crawler@.found =~= Seq::<CandidateView>::empty());
        assert(crawler@.skipped =~= Seq::<Seq<char>>::empty());
    }
    crawler
}

impl Crawler {
    /// The path of the directory whose listing the crawl needs next.
    pub fn awaited(&self) -> (path: &String)
        ensures
            path@ == self@.awaiting,
    {
        &self.awaiting
    }

    /// Whether the awaited directory is the root of the crawl.
    pub fn is_at_root(&self) -> (at_root: bool)
        ensures
            at_root == self@.at_root,
    {
        self.at_root
    }

    /// Takes the outcome of reading the awaited directory and goes on
    /// with the crawl, up to the next directory that has to be read.
    ///
    /// The crawl fails exactly when the directory could not be listed, and
    /// then with the error of that directory.
    pub fn advance(self, read: DirRead) -> (status: CrawlStatus)
        ensures
            status@ == self@.advance(read@),
            status is Failed <==> !(read is Listed),
            status matches CrawlStatus::Failed(error) ==> error@ == self@.failure(read@),
    {
        proof {
            lemma_advance_finds_only_files(self@, read@);
        }
        let Crawler { awaiting, at_root, pending, visited, found, skipped } = self;
        let mut pending = pending;
        let mut visited = visited;
        let mut found = found;
        let mut skipped = skipped;
        match read {
            DirRead::Listed { identity, entries } => {
                if !is_listed(&visited, &identity) {
                    proof {
                        assert(text_views(visited@.push(identity)) =~= text_views(visited@).push(
                            identity@,
                        ));
                        assert(entry_views((pending@ + entries@.reverse()).reverse())
                            =~= entry_views(entries@) + entry_views(pending@.reverse()));
                    }
                    visited.push(identity);
                    push_reversed(&mut pending, entries);
                }
                let ghost goal = self@.advance(read@);
                assert(goal == model_of(
                    awaiting@,
                    at_root,
                    pending@,
                    visited@,
                    found@,
                    skipped@,
                ).settle());
                while pending.len() > 0
                    invariant
                        goal == self@.advance(read@),
                        goal == model_of(
                            awaiting@,
                            at_root,
                            pending@,
                            visited@,
                            found@,
                            skipped@,
                        ).settle(),
                    decreases pending.len(),
                {
                    let ghost before = model_of(
                        awaiting@,
                        at_root,
                        pending@,
                        visited@,
                        found@,
                        skipped@,
                    );
                    match pending.pop() {
                        Some(entry) => {
                            proof {
                                assert(before.todo.first() == entry@);
                                assert(before.todo.drop_first() =~= entry_views(
                                    pending@.reverse(),
                                ));
                            }
                            if entry.is_dir {
                                let next = Crawler {
                                    awaiting: entry.full_path,
                                    at_root: false,
                                    pending,
                                    visited,
                                    found,
                                    skipped,
                                };
                                return CrawlStatus::NeedsListing(next);
                            }
                            match entry.name {
                                Some(name) => {
                                    let candidate = CandidateEntry::new(name, entry.full_path);
                                    proof {
                                        assert(candidate_views(found@.push(candidate))
                                            =~= candidate_views(found@).push(candidate@));
                                    }
                                    found.push(candidate);
                                },
                                None => {
                                    proof {
                                        assert(text_views(skipped@.push(entry.full_path))
                                            =~= text_views(skipped@).push(entry.full_path@));
                                    }
                                    skipped.push(entry.full_path);
                                },
                            }
                        },
                        None => {},
                    }
                }
                CrawlStatus::Finished(CrawlReport { candidates: found, skipped })
            },
            DirRead::Missing | DirRead::NotADirectory => {
                if at_root {
                    CrawlStatus::Failed(CrawlError::InvalidPath(awaiting))
                } else {
                    CrawlStatus::Failed(CrawlError::DirectoryUnreadable(awaiting))
                }
            },
            DirRead::Unreadable => CrawlStatus::Failed(CrawlError::DirectoryUnreadable(awaiting)),
        }
    }
}

} // verus!
