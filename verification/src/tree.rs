//! What a crawl makes of a whole directory tree.
//!
//! A [`FsTree`] describes, as a mathematical value, a tree of files and
//! directories as it lies on disk. [`walk`] answers every listing that a
//! crawl asks for from such a tree. The laws of this module say what comes
//! of it: every file of the tree and nothing else, in listing order, or
//! the error of the first directory that cannot be listed.

use crate::candidate::{unscored, CandidateView};
use crate::crawler::{CrawlModel, EntryView, ErrorView, ReadView, ReportView, StatusView};
use vstd::prelude::*;

verus! {

/// A file, a directory with what it holds, or a directory that cannot be
/// listed.
pub ghost enum FsTree {
    File { name: Option<Seq<char>>, full_path: Seq<char> },
    Dir { name: Option<Seq<char>>, full_path: Seq<char>, identity: Seq<char>, children: Seq<FsTree> },
    Blocked { name: Option<Seq<char>>, full_path: Seq<char>, read: ReadView },
}

impl FsTree {
    /// The entry under which this node shows in its parent's listing.
    pub open spec fn entry(self) -> EntryView {
        match self {
            FsTree::File { name, full_path } => EntryView { name, full_path, is_dir: false },
            FsTree::Dir { name, full_path, .. } => EntryView { name, full_path, is_dir: true },
            FsTree::Blocked { name, full_path, .. } => EntryView { name, full_path, is_dir: true },
        }
    }

    /// What reading this node as a directory gives.
    pub open spec fn listing(self) -> ReadView {
        match self {
            FsTree::File { .. } => ReadView::NotADirectory,
            FsTree::Dir { identity, children, .. } => ReadView::Listed {
                identity,
                entries: entries_of(children),
            },
            FsTree::Blocked { read, .. } => read,
        }
    }

    /// The path of this node.
    pub open spec fn path(self) -> Seq<char> {
        match self {
            FsTree::File { full_path, .. } => full_path,
            FsTree::Dir { full_path, .. } => full_path,
            FsTree::Blocked { full_path, .. } => full_path,
        }
    }
}

/// The listing that shows the nodes `nodes`, in order.
pub open spec fn entries_of(nodes: Seq<FsTree>) -> Seq<EntryView> {
    nodes.map_values(|node: FsTree| node.entry())
}

/// No directory that cannot be listed claims a listing.
pub open spec fn well_formed(nodes: Seq<FsTree>) -> bool
    decreases nodes,
{
    if nodes.len() == 0 {
        true
    } else {
        &&& match nodes.first() {
            FsTree::File { .. } => true,
            FsTree::Dir { children, .. } => well_formed(children),
            FsTree::Blocked { read, .. } => !(read is Listed),
        }
        &&& well_formed(nodes.drop_first())
    }
}

/// The path of the first directory among `nodes` and below them, in crawl
/// order, that cannot be listed.
pub open spec fn first_blocked(nodes: Seq<FsTree>) -> Option<Seq<char>>
    decreases nodes,
{
    if nodes.len() == 0 {
        None
    } else {
        match nodes.first() {
            FsTree::File { .. } => first_blocked(nodes.drop_first()),
            FsTree::Dir { children, .. } => match first_blocked(children) {
                Some(path) => Some(path),
                None => first_blocked(nodes.drop_first()),
            },
            FsTree::Blocked { full_path, .. } => Some(full_path),
        }
    }
}

/// The candidates of all files with a name among `nodes` and below them:
/// each node in turn, a directory standing for the files below it.
pub open spec fn files_of(nodes: Seq<FsTree>) -> Seq<CandidateView>
    decreases nodes,
{
    if nodes.len() == 0 {
        Seq::empty()
    } else {
        let head = match nodes.first() {
            FsTree::File { name: Some(name), full_path } => seq![unscored(name, full_path)],
            FsTree::File { name: None, .. } => Seq::empty(),
            FsTree::Dir { children, .. } => files_of(children),
            FsTree::Blocked { .. } => Seq::empty(),
        };
        head + files_of(nodes.drop_first())
    }
}

/// The paths of all files without a name among `nodes` and below them, in
/// the same order.
pub open spec fn nameless_of(nodes: Seq<FsTree>) -> Seq<Seq<char>>
    decreases nodes,
{
    if nodes.len() == 0 {
        Seq::empty()
    } else {
        let head = match nodes.first() {
            FsTree::File { name: Some(_), .. } => Seq::empty(),
            FsTree::File { name: None, full_path } => seq![full_path],
            FsTree::Dir { children, .. } => nameless_of(children),
            FsTree::Blocked { .. } => Seq::empty(),
        };
        head + nameless_of(nodes.drop_first())
    }
}

/// The identities of all directories among `nodes` and below them, each
/// directory before what it holds.
pub open spec fn identities_of(nodes: Seq<FsTree>) -> Seq<Seq<char>>
    decreases nodes,
{
    if nodes.len() == 0 {
        Seq::empty()
    } else {
        let head = match nodes.first() {
            FsTree::Dir { identity, children, .. } => seq![identity] + identities_of(children),
            _ => Seq::empty(),
        };
        head + identities_of(nodes.drop_first())
    }
}

/// The crawl `crawl` after the listing of `dir` was handed in, and after
/// it the listing of every directory below `dir`, each when its turn came.
pub open spec fn walk(crawl: CrawlModel, dir: FsTree) -> StatusView
    decreases dir, 1int,
{
    match dir {
        FsTree::Dir { children, .. } => walk_all(crawl.advance(dir.listing()), children),
        _ => crawl.advance(dir.listing()),
    }
}

/// Goes on from `status` through the directories among `nodes`, in order:
/// each is walked if the crawl waits for its path just then. A crawl that
/// has ended, or that waits for another path, stays as it is.
pub open spec fn walk_all(status: StatusView, nodes: Seq<FsTree>) -> StatusView
    decreases nodes, 0int,
{
    if nodes.len() == 0 {
        status
    } else {
        let node = nodes.first();
        match (node, status) {
            (FsTree::File { .. }, _) => walk_all(status, nodes.drop_first()),
            (_, StatusView::NeedsListing(crawl)) => if crawl.awaiting == node.path() {
                walk_all(walk(crawl, node), nodes.drop_first())
            } else {
                status
            },
            _ => status,
        }
    }
}

/// A crawl that has ended stays as it is, whatever is walked after.
proof fn lemma_walk_all_after_the_end(status: StatusView, nodes: Seq<FsTree>)
    requires
        !(status is NeedsListing),
    ensures
        walk_all(status, nodes) == status,
    decreases nodes.len(),
{
    if nodes.len() > 0 {
        lemma_walk_all_after_the_end(status, nodes.drop_first());
    }
}

/// Settling looks at the entries still to do and at what was gathered,
/// not at the directory that was awaited before.
proof fn lemma_settle_ignores_awaited(a: CrawlModel, b: CrawlModel)
    requires
        a.todo == b.todo,
        a.visited == b.visited,
        a.found == b.found,
        a.skipped == b.skipped,
    ensures
        a.settle() == b.settle(),
    decreases a.todo.len(),
{
    if a.todo.len() > 0 {
        let entry = a.todo.first();
        let rest = a.todo.drop_first();
        if !entry.is_dir {
            match entry.name {
                Some(name) => {
                    lemma_settle_ignores_awaited(
                        CrawlModel {
                            todo: rest,
                            found: a.found.push(unscored(name, entry.full_path)),
                            ..a
                        },
                        CrawlModel {
                            todo: rest,
                            found: b.found.push(unscored(name, entry.full_path)),
                            ..b
                        },
                    );
                },
                None => {
                    lemma_settle_ignores_awaited(
                        CrawlModel {
                            todo: rest,
                            skipped: a.skipped.push(entry.full_path),
                            ..a
                        },
                        CrawlModel {
                            todo: rest,
                            skipped: b.skipped.push(entry.full_path),
                            ..b
                        },
                    );
                },
            }
        }
    }
}

/// A sequence without duplicates has none in any of its prefixes.
proof fn lemma_prefix_has_no_duplicates(whole: Seq<Seq<char>>, part: Seq<Seq<char>>)
    requires
        whole.no_duplicates(),
        part.is_prefix_of(whole),
    ensures
        part.no_duplicates(),
{
    assert forall|i: int, j: int| 0 <= i < part.len() && 0 <= j < part.len() && i != j implies part[i]
        != part[j] by {
        assert(part[i] == whole[i]);
        assert(part[j] == whole[j]);
    }
}

/// The crawl that has the entries of `nodes` before it, followed by
/// `rest`, and is answered from `nodes`: it fails at the first directory
/// that cannot be listed, and else gets as far as if the files of `nodes`
/// were found, their directories visited, and only `rest` were left.
proof fn lemma_walk_all(crawl: CrawlModel, nodes: Seq<FsTree>, rest: Seq<EntryView>)
    requires
        well_formed(nodes),
        (crawl.visited + identities_of(nodes)).no_duplicates(),
    ensures
        ({
            let begun = CrawlModel { todo: entries_of(nodes) + rest, ..crawl }.settle();
            match first_blocked(nodes) {
                Some(path) => walk_all(begun, nodes) == StatusView::Failed(
                    ErrorView::DirectoryUnreadable(path),
                ),
                None => walk_all(begun, nodes) == CrawlModel {
                    todo: rest,
                    visited: crawl.visited + identities_of(nodes),
                    found: crawl.found + files_of(nodes),
                    skipped: crawl.skipped + nameless_of(nodes),
                    ..crawl
                }.settle(),
            }
        }),
    decreases nodes,
{
    let ahead = CrawlModel { todo: entries_of(nodes) + rest, ..crawl };
    let begun = ahead.settle();
    if nodes.len() == 0 {
        assert(entries_of(nodes) + rest =~= rest);
        assert(crawl.visited + identities_of(nodes) =~= crawl.visited);
        assert(crawl.found + files_of(nodes) =~= crawl.found);
        assert(crawl.skipped + nameless_of(nodes) =~= crawl.skipped);
    } else {
        let node = nodes.first();
        let others = nodes.drop_first();
        assert(ahead.todo.first() == node.entry());
        assert(ahead.todo.drop_first() =~= entries_of(others) + rest);
        match node {
            FsTree::File { name, full_path } => {
                let next = match name {
                    Some(name) => CrawlModel {
                        found: crawl.found.push(unscored(name, full_path)),
                        ..crawl
                    },
                    None => CrawlModel { skipped: crawl.skipped.push(full_path), ..crawl },
                };
                assert(begun == CrawlModel { todo: entries_of(others) + rest, ..next }.settle());
                assert(identities_of(nodes) =~= identities_of(others));
                lemma_walk_all(next, others, rest);
                assert(next.found + files_of(others) =~= crawl.found + files_of(nodes));
                assert(next.skipped + nameless_of(others) =~= crawl.skipped + nameless_of(nodes));
            },
            FsTree::Blocked { full_path, read, .. } => {
                let waiting = CrawlModel {
                    awaiting: full_path,
                    at_root: false,
                    todo: entries_of(others) + rest,
                    ..crawl
                };
                assert(begun == StatusView::NeedsListing(waiting));
                let failed = StatusView::Failed(ErrorView::DirectoryUnreadable(full_path));
                assert(walk(waiting, node) == failed);
                lemma_walk_all_after_the_end(failed, others);
            },
            FsTree::Dir { full_path, identity, children, .. } => {
                let waiting = CrawlModel {
                    awaiting: full_path,
                    at_root: false,
                    todo: entries_of(others) + rest,
                    ..crawl
                };
                assert(begun == StatusView::NeedsListing(waiting));
                let known = crawl.visited + identities_of(nodes);
                let inner_ids = identities_of(children);
                let outer_ids = identities_of(others);
                assert(identities_of(nodes) =~= (seq![identity] + inner_ids) + outer_ids);
                assert(known[crawl.visited.len() as int] == identity);
                assert(!crawl.visited.contains(identity)) by {
                    if crawl.visited.contains(identity) {
                        let i = choose|i: int|
                            0 <= i < crawl.visited.len() && crawl.visited[i] == identity;
                        assert(known[i] == identity);
                    }
                }
                let inside = CrawlModel { visited: crawl.visited.push(identity), ..waiting };
                assert(waiting.advance(node.listing()) == CrawlModel {
                    todo: entries_of(children) + waiting.todo,
                    ..inside
                }.settle());
                assert((inside.visited + inner_ids).is_prefix_of(known));
                lemma_prefix_has_no_duplicates(known, inside.visited + inner_ids);
                lemma_walk_all(inside, children, waiting.todo);
                match first_blocked(children) {
                    Some(path) => {
                        lemma_walk_all_after_the_end(
                            StatusView::Failed(ErrorView::DirectoryUnreadable(path)),
                            others,
                        );
                    },
                    None => {
                        let after = CrawlModel {
                            todo: waiting.todo,
                            visited: inside.visited + inner_ids,
                            found: crawl.found + files_of(children),
                            skipped: crawl.skipped + nameless_of(children),
                            ..inside
                        };
                        assert(walk(waiting, node) == after.settle());
                        assert(after.visited + outer_ids =~= known);
                        lemma_walk_all(after, others, rest);
                        assert(after.found + files_of(others) =~= crawl.found + files_of(nodes));
                        assert(after.skipped + nameless_of(others) =~= crawl.skipped + nameless_of(
                            nodes,
                        ));
                        if first_blocked(others) is None {
                            lemma_settle_ignores_awaited(
                                CrawlModel {
                                    todo: rest,
                                    visited: after.visited + outer_ids,
                                    found: after.found + files_of(others),
                                    skipped: after.skipped + nameless_of(others),
                                    ..after
                                },
                                CrawlModel {
                                    todo: rest,
                                    visited: crawl.visited + identities_of(nodes),
                                    found: crawl.found + files_of(nodes),
                                    skipped: crawl.skipped + nameless_of(nodes),
                                    ..crawl
                                },
                            );
                        }
                    },
                }
            },
        }
    }
}

/// A crawl that is answered from a tree in which every directory can be
/// listed, and no directory shows twice, finds the files of the tree: all
/// of them, nothing else, each once, in listing order, whatever lies below
/// a directory in the place of that directory.
pub proof fn lemma_crawl_finds_every_file(root: FsTree)
    requires
        root is Dir,
        well_formed(seq![root]),
        identities_of(seq![root]).no_duplicates(),
        first_blocked(seq![root]) is None,
    ensures
        walk(CrawlModel::start(root.path()), root) == StatusView::Finished(
            ReportView { candidates: files_of(seq![root]), skipped: nameless_of(seq![root]) },
        ),
{
    lemma_crawl_of_tree(root);
}

/// A crawl that is answered from a tree with a directory that cannot be
/// listed fails with the error of that directory, the first one in crawl
/// order: it neither finishes nor leaves the directory out.
pub proof fn lemma_crawl_reports_unreadable_directory(root: FsTree)
    requires
        root is Dir,
        well_formed(seq![root]),
        identities_of(seq![root]).no_duplicates(),
        first_blocked(seq![root]) is Some,
    ensures
        walk(CrawlModel::start(root.path()), root) == StatusView::Failed(
            ErrorView::DirectoryUnreadable(first_blocked(seq![root])->0),
        ),
{
    lemma_crawl_of_tree(root);
}

/// A crawl whose root cannot be listed fails at once: with an invalid
/// path where the root is missing or no directory, and with an unreadable
/// directory otherwise.
pub proof fn lemma_crawl_reports_unusable_root(root: FsTree)
    requires
        !(root is Dir),
        !(root.listing() is Listed),
    ensures
        walk(CrawlModel::start(root.path()), root) == StatusView::Failed(
            if root.listing() is Unreadable {
                ErrorView::DirectoryUnreadable(root.path())
            } else {
                ErrorView::InvalidPath(root.path())
            },
        ),
{
}

proof fn lemma_crawl_of_tree(root: FsTree)
    requires
        root is Dir,
        well_formed(seq![root]),
        identities_of(seq![root]).no_duplicates(),
    ensures
        match first_blocked(seq![root]) {
            Some(path) => walk(CrawlModel::start(root.path()), root) == StatusView::Failed(
                ErrorView::DirectoryUnreadable(path),
            ),
            None => walk(CrawlModel::start(root.path()), root) == StatusView::Finished(
                ReportView { candidates: files_of(seq![root]), skipped: nameless_of(seq![root]) },
            ),
        },
{
    let start = CrawlModel::start(root.path());
    let children = root->Dir_children;
    let identity = root->Dir_identity;
    let nodes = seq![root];
    assert(nodes.first() == root);
    assert(nodes.drop_first() =~= Seq::<FsTree>::empty());
    assert(identities_of(nodes.drop_first()) =~= Seq::<Seq<char>>::empty());
    assert(files_of(nodes.drop_first()) =~= Seq::<CandidateView>::empty());
    assert(nameless_of(nodes.drop_first()) =~= Seq::<Seq<char>>::empty());
    assert(first_blocked(nodes.drop_first()) is None);
    assert(well_formed(children));
    assert(identities_of(nodes) =~= seq![identity] + identities_of(children));
    assert(files_of(nodes) =~= files_of(children));
    assert(nameless_of(nodes) =~= nameless_of(children));
    assert(first_blocked(nodes) == first_blocked(children));
    let inside = CrawlModel { visited: start.visited.push(identity), ..start };
    assert(inside.visited + identities_of(children) =~= identities_of(nodes));
    assert(entries_of(children) + start.todo =~= entries_of(children) + Seq::<EntryView>::empty());
    assert(start.advance(root.listing()) == CrawlModel {
        todo: entries_of(children) + Seq::<EntryView>::empty(),
        ..inside
    }.settle());
    lemma_walk_all(inside, children, Seq::empty());
    if first_blocked(children) is None {
        assert(inside.found + files_of(children) =~= files_of(nodes));
        assert(inside.skipped + nameless_of(children) =~= nameless_of(nodes));
    }
}

} // verus!
