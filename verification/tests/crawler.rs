use file_ripper::candidate::CandidateEntry;
use file_ripper::crawler::{
    crawl_subdirs, CrawlError, CrawlReport, CrawlStatus, DirEntry, DirRead,
};

fn file(name: &str, full_path: &str) -> DirEntry {
    DirEntry { name: Some(name.to_string()), full_path: full_path.to_string(), is_dir: false }
}

fn dir(name: &str, full_path: &str) -> DirEntry {
    DirEntry { name: Some(name.to_string()), full_path: full_path.to_string(), is_dir: true }
}

fn listed(identity: &str, entries: Vec<DirEntry>) -> DirRead {
    DirRead::Listed { identity: identity.to_string(), entries }
}

/// Runs a crawl of `root` against a disk given as a table from paths to
/// what reading them gives. A path that the table lacks is missing. Also
/// returns the paths in the order the crawl asked for them.
fn crawl(root: &str, disk: &[(&str, DirRead)]) -> (Result<CrawlReport, CrawlError>, Vec<String>) {
    let mut asked = Vec::new();
    let mut crawler = crawl_subdirs(root.to_string());
    loop {
        let path = crawler.awaited().clone();
        assert!(asked.len() <= disk.len() * 4 + 4, "the crawl does not end");
        asked.push(path.clone());
        let read = disk
            .iter()
            .find(|(at, _)| *at == path)
            .map(|(_, read)| read.clone())
            .unwrap_or(DirRead::Missing);
        match crawler.advance(read) {
            CrawlStatus::NeedsListing(next) => crawler = next,
            CrawlStatus::Finished(report) => return (Ok(report), asked),
            CrawlStatus::Failed(error) => return (Err(error), asked),
        }
    }
}

fn paths(report: &CrawlReport) -> Vec<&str> {
    report.candidates.iter().map(|c| c.full_path.as_str()).collect()
}

fn three_level_disk() -> Vec<(&'static str, DirRead)> {
    vec![
        ("root", listed("id:root", vec![file("a.txt", "root/a.txt"), dir("sub", "root/sub")])),
        (
            "root/sub",
            listed(
                "id:sub",
                vec![file("b.txt", "root/sub/b.txt"), dir("sub2", "root/sub/sub2")],
            ),
        ),
        ("root/sub/sub2", listed("id:sub2", vec![file("c.txt", "root/sub/sub2/c.txt")])),
    ]
}

#[test]
fn crawl_finds_every_file_of_the_tree() {
    let (result, asked) = crawl("root", &three_level_disk());
    let report = result.unwrap();
    assert_eq!(report.candidates.len(), 3);
    let mut found = paths(&report);
    found.sort();
    assert_eq!(found, vec!["root/a.txt", "root/sub/b.txt", "root/sub/sub2/c.txt"]);
    assert_eq!(asked, vec!["root", "root/sub", "root/sub/sub2"]);
    assert!(report.skipped.is_empty());
}

#[test]
fn crawl_gives_candidates_their_name_path_and_first_score() {
    let (result, _) = crawl("root", &three_level_disk());
    assert_eq!(
        result.unwrap().candidates,
        vec![
            CandidateEntry {
                name: "a.txt".to_string(),
                full_path: "root/a.txt".to_string(),
                score: 5
            },
            CandidateEntry {
                name: "b.txt".to_string(),
                full_path: "root/sub/b.txt".to_string(),
                score: 5
            },
            CandidateEntry {
                name: "c.txt".to_string(),
                full_path: "root/sub/sub2/c.txt".to_string(),
                score: 5
            },
        ]
    );
}

#[test]
fn crawl_never_reports_a_directory() {
    let (result, _) = crawl("root", &three_level_disk());
    let report = result.unwrap();
    for path in paths(&report) {
        assert!(path != "root" && path != "root/sub" && path != "root/sub/sub2");
    }
}

#[test]
fn crawl_of_an_empty_directory_finds_nothing() {
    let disk = vec![("root", listed("id:root", vec![]))];
    let (result, asked) = crawl("root", &disk);
    assert_eq!(result, Ok(CrawlReport { candidates: vec![], skipped: vec![] }));
    assert_eq!(asked, vec!["root"]);
}

#[test]
fn crawl_puts_a_subdirectory_where_it_stood_in_the_listing() {
    let disk = vec![
        (
            "r",
            listed(
                "r",
                vec![
                    file("x", "r/x"),
                    dir("d1", "r/d1"),
                    file("y", "r/y"),
                    dir("d2", "r/d2"),
                    file("z", "r/z"),
                ],
            ),
        ),
        ("r/d1", listed("d1", vec![file("p", "r/d1/p"), dir("e", "r/d1/e"), file("q", "r/d1/q")])),
        ("r/d1/e", listed("e", vec![file("deep", "r/d1/e/deep")])),
        ("r/d2", listed("d2", vec![])),
    ];
    let (result, asked) = crawl("r", &disk);
    assert_eq!(
        paths(&result.unwrap()),
        vec!["r/x", "r/d1/p", "r/d1/e/deep", "r/d1/q", "r/y", "r/z"]
    );
    assert_eq!(asked, vec!["r", "r/d1", "r/d1/e", "r/d2"]);
}

#[test]
fn crawl_does_not_sort_the_listing() {
    let disk = vec![(
        "r",
        listed("r", vec![file("zeta", "r/zeta"), file("alpha", "r/alpha"), file("mid", "r/mid")]),
    )];
    let (result, _) = crawl("r", &disk);
    assert_eq!(paths(&result.unwrap()), vec!["r/zeta", "r/alpha", "r/mid"]);
}

#[test]
fn first_score_counts_code_points() {
    let disk = vec![("r", listed("r", vec![file("ñandú.txt", "r/ñandú.txt")]))];
    let (result, _) = crawl("r", &disk);
    assert_eq!(result.unwrap().candidates[0].score, 9);
}

#[test]
fn unreadable_subdirectory_fails_the_crawl() {
    let mut disk = three_level_disk();
    disk[1].1 = DirRead::Unreadable;
    let (result, asked) = crawl("root", &disk);
    assert_eq!(result, Err(CrawlError::DirectoryUnreadable("root/sub".to_string())));
    assert_eq!(asked, vec!["root", "root/sub"]);
}

#[test]
fn unreadable_directory_deep_in_the_tree_fails_the_crawl() {
    let mut disk = three_level_disk();
    disk[2].1 = DirRead::Unreadable;
    let (result, _) = crawl("root", &disk);
    assert_eq!(result, Err(CrawlError::DirectoryUnreadable("root/sub/sub2".to_string())));
}

#[test]
fn subdirectory_that_vanished_counts_as_unreadable() {
    let mut disk = three_level_disk();
    disk.remove(2);
    let (result, _) = crawl("root", &disk);
    assert_eq!(result, Err(CrawlError::DirectoryUnreadable("root/sub/sub2".to_string())));
}

#[test]
fn subdirectory_that_became_a_file_counts_as_unreadable() {
    let mut disk = three_level_disk();
    disk[1].1 = DirRead::NotADirectory;
    let (result, _) = crawl("root", &disk);
    assert_eq!(result, Err(CrawlError::DirectoryUnreadable("root/sub".to_string())));
}

#[test]
fn unreadable_root_fails_the_crawl() {
    let disk = vec![("root", DirRead::Unreadable)];
    let (result, _) = crawl("root", &disk);
    assert_eq!(result, Err(CrawlError::DirectoryUnreadable("root".to_string())));
}

#[test]
fn missing_root_is_an_invalid_path() {
    let (result, asked) = crawl("nowhere", &[]);
    assert_eq!(result, Err(CrawlError::InvalidPath("nowhere".to_string())));
    assert_eq!(asked, vec!["nowhere"]);
}

#[test]
fn root_that_is_a_file_is_an_invalid_path() {
    let disk = vec![("notes.txt", DirRead::NotADirectory)];
    let (result, _) = crawl("notes.txt", &disk);
    assert_eq!(result, Err(CrawlError::InvalidPath("notes.txt".to_string())));
}

#[test]
fn entry_without_a_name_is_skipped_and_noted() {
    let nameless = DirEntry { name: None, full_path: "r/\u{fffd}".to_string(), is_dir: false };
    let disk = vec![("r", listed("r", vec![file("a", "r/a"), nameless, file("b", "r/b")]))];
    let (result, _) = crawl("r", &disk);
    let report = result.unwrap();
    assert_eq!(paths(&report), vec!["r/a", "r/b"]);
    assert_eq!(report.skipped, vec!["r/\u{fffd}".to_string()]);
}

#[test]
fn directory_without_a_name_is_still_crawled() {
    let nameless = DirEntry { name: None, full_path: "r/d".to_string(), is_dir: true };
    let disk = vec![
        ("r", listed("r", vec![nameless])),
        ("r/d", listed("d", vec![file("inside", "r/d/inside")])),
    ];
    let (result, _) = crawl("r", &disk);
    let report = result.unwrap();
    assert_eq!(paths(&report), vec!["r/d/inside"]);
    assert!(report.skipped.is_empty());
}

#[test]
fn link_back_to_the_root_does_not_loop() {
    // r/loop is a link to r itself: reading it lists r again.
    let root_listing = vec![file("a", "r/a"), dir("loop", "r/loop"), file("b", "r/b")];
    let again = vec![file("a", "r/loop/a"), dir("loop", "r/loop/loop"), file("b", "r/loop/b")];
    let disk = vec![("r", listed("id:r", root_listing)), ("r/loop", listed("id:r", again))];
    let (result, asked) = crawl("r", &disk);
    assert_eq!(paths(&result.unwrap()), vec!["r/a", "r/b"]);
    assert_eq!(asked, vec!["r", "r/loop"]);
}

#[test]
fn directory_reached_twice_is_taken_in_once() {
    let disk = vec![
        ("r", listed("id:r", vec![dir("d", "r/d"), dir("same", "r/same"), file("z", "r/z")])),
        ("r/d", listed("id:d", vec![file("f", "r/d/f")])),
        ("r/same", listed("id:d", vec![file("f", "r/same/f")])),
    ];
    let (result, _) = crawl("r", &disk);
    assert_eq!(paths(&result.unwrap()), vec!["r/d/f", "r/z"]);
}

#[test]
fn crawler_starts_at_the_root() {
    let crawler = crawl_subdirs("some/dir".to_string());
    assert_eq!(crawler.awaited(), "some/dir");
    assert!(crawler.is_at_root());
}

#[test]
fn crawler_below_the_root_says_so() {
    let crawler = crawl_subdirs("r".to_string());
    match crawler.advance(listed("r", vec![file("a", "r/a"), dir("d", "r/d")])) {
        CrawlStatus::NeedsListing(next) => {
            assert_eq!(next.awaited(), "r/d");
            assert!(!next.is_at_root());
        }
        _ => panic!("the crawl should wait for r/d"),
    }
}
