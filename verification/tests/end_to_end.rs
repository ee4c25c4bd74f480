use file_ripper::candidate::CandidateEntry;
use file_ripper::crawler::{crawl_subdirs, CrawlStatus, DirEntry, DirRead};
use file_ripper::scorer::{rank_by_score, score_all, score_and_rank};

/// Crawls a root that holds the three given files and nothing else.
/// Each file is given by the name to compare and by its path.
fn crawl_flat_root(files: &[(&str, &str)]) -> Vec<CandidateEntry> {
    let entries = files
        .iter()
        .map(|(name, path)| DirEntry {
            name: Some(name.to_string()),
            full_path: path.to_string(),
            is_dir: false,
        })
        .collect();
    let crawler = crawl_subdirs("root".to_string());
    match crawler.advance(DirRead::Listed { identity: "root".to_string(), entries }) {
        CrawlStatus::Finished(report) => report.candidates,
        _ => panic!("a root without subdirectories is crawled in one step"),
    }
}

fn search(query: &str, files: &[(&str, &str)]) -> Vec<(String, usize)> {
    score_and_rank(query.to_string(), crawl_flat_root(files))
        .into_iter()
        .map(|c| (c.full_path, c.score))
        .collect()
}

#[test]
fn notes_are_ranked_by_their_names_without_extension() {
    let ranked = search(
        "notes",
        &[
            ("notes", "root/notes.txt"),
            ("report", "root/report.pdf"),
            ("notesfinal", "root/notesfinal.txt"),
        ],
    );
    assert_eq!(
        ranked,
        vec![
            ("root/notes.txt".to_string(), 0),
            ("root/notesfinal.txt".to_string(), 5),
            ("root/report.pdf".to_string(), 6),
        ]
    );
    assert!(ranked[2].1 >= 6);
}

#[test]
fn notes_are_ranked_by_their_full_file_names() {
    let ranked = search(
        "notes",
        &[
            ("notes.txt", "root/notes.txt"),
            ("report.pdf", "root/report.pdf"),
            ("notesfinal.txt", "root/notesfinal.txt"),
        ],
    );
    assert_eq!(
        ranked,
        vec![
            ("root/notes.txt".to_string(), 4),
            ("root/report.pdf".to_string(), 8),
            ("root/notesfinal.txt".to_string(), 9),
        ]
    );
}

#[test]
fn search_reruns_from_scratch_for_each_query() {
    let files = [("alpha", "root/alpha"), ("beta", "root/beta"), ("alphabet", "root/alphabet")];
    let first = search("alpha", &files);
    let second = search("beta", &files);
    assert_eq!(first[0], ("root/alpha".to_string(), 0));
    assert_eq!(second[0], ("root/beta".to_string(), 0));
    assert_eq!(search("alpha", &files), first);
}

#[test]
fn score_and_rank_is_scoring_then_ranking() {
    let files = [("b", "root/b"), ("abc", "root/abc"), ("a", "root/a"), ("c", "root/c")];
    let in_steps = rank_by_score(score_all("a".to_string(), crawl_flat_root(&files)));
    let at_once = score_and_rank("a".to_string(), crawl_flat_root(&files));
    assert_eq!(at_once, in_steps);
    let order: Vec<&str> = at_once.iter().map(|c| c.name.as_str()).collect();
    assert_eq!(order, vec!["a", "b", "c", "abc"]);
}

#[test]
fn exact_name_comes_first() {
    let files = [("zebra", "root/zebra"), ("notes", "root/notes"), ("note", "root/note")];
    let ranked = search("notes", &files);
    assert_eq!(ranked[0], ("root/notes".to_string(), 0));
    assert_eq!(ranked[1], ("root/note".to_string(), 1));
}
