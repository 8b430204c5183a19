use fuzzy_find::traversal::{ignore_file_path, strip_relative_prefix};
use fuzzy_find::{Entry, IgnoreFile, InputError, Options, Search};

fn opts() -> Options {
    Options { insensitive: false, verbose: false }
}

fn entry(path: &str, is_dir: bool) -> Entry {
    Entry { path: path.to_string(), is_dir }
}

fn start(term: &str) -> Search {
    match Search::new(term, opts()) {
        Ok(s) => s,
        Err(_) => panic!("term is not empty"),
    }
}

#[test]
fn empty_term_is_refused() {
    assert_eq!(Search::new("", opts()).err(), Some(InputError::EmptyTerm));
}

#[test]
fn search_starts_at_the_current_directory() {
    let mut s = start("x");
    let d = s.next_dir().unwrap();
    assert_eq!(d.path, "./");
    assert_eq!(d.rule_index, 0);
    assert!(s.next_dir().is_none());
}

#[test]
fn paths_lose_their_leading_marker() {
    assert_eq!(strip_relative_prefix("./src/a.rs"), "src/a.rs");
    assert_eq!(strip_relative_prefix("src/a.rs"), "src/a.rs");
    assert_eq!(strip_relative_prefix("."), ".");
}

#[test]
fn ignore_file_sits_in_the_directory() {
    assert_eq!(ignore_file_path("./src"), "./src/.gitignore");
}

#[test]
fn listing_prints_matches_and_pushes_kept_directories() {
    let mut s = start("main");
    let root = s.next_dir().unwrap();
    let active = s.enter_dir(&root, &IgnoreFile::Contents("target/\n".to_string()));
    assert_eq!(active, 1);
    assert_eq!(s.rule_set_count(), 2);
    let printed = s.visit_listing(
        active,
        &vec![entry("./src", true), entry("./target", true), entry("./main.rs", false)],
    );
    assert_eq!(printed, vec!["main.rs".to_string()]);
    let d = s.next_dir().unwrap();
    assert_eq!(d.path, "./src");
    assert_eq!(d.rule_index, 1);
    assert!(s.next_dir().is_none());
}

#[test]
fn matching_directory_is_printed_and_searched() {
    let mut s = start("src");
    let root = s.next_dir().unwrap();
    let active = s.enter_dir(&root, &IgnoreFile::Missing);
    assert_eq!(active, 0);
    assert_eq!(s.visit_entry(active, &entry("./src", true)), Some("src".to_string()));
    assert_eq!(s.next_dir().unwrap().path, "./src");
}

#[test]
fn each_entry_is_printed_once() {
    let mut s = start("a");
    let root = s.next_dir().unwrap();
    let active = s.enter_dir(&root, &IgnoreFile::Missing);
    let printed = s.visit_listing(
        active,
        &vec![entry("./a1", false), entry("./a2", true), entry("./b", false)],
    );
    assert_eq!(printed, vec!["a1".to_string(), "a2".to_string()]);
    assert_eq!(s.next_dir().unwrap().path, "./a2");
    assert!(s.next_dir().is_none());
}

#[test]
fn sibling_keeps_the_rules_it_inherited() {
    let mut s = start("x");
    let root = s.next_dir().unwrap();
    let active = s.enter_dir(&root, &IgnoreFile::Missing);
    s.visit_listing(active, &vec![entry("./c", true), entry("./b", true)]);

    let b = s.next_dir().unwrap();
    assert_eq!(b.path, "./b");
    let in_b = s.enter_dir(&b, &IgnoreFile::Contents("*.txt\n".to_string()));
    assert_eq!(in_b, 1);
    assert!(s.visit_listing(in_b, &vec![entry("./b/x.txt", false)]).is_empty());

    let c = s.next_dir().unwrap();
    assert_eq!(c.path, "./c");
    assert_eq!(c.rule_index, 0);
    let in_c = s.enter_dir(&c, &IgnoreFile::Missing);
    assert_eq!(in_c, 0);
    assert_eq!(s.visit_listing(in_c, &vec![entry("./c/x.txt", false)]), vec!["c/x.txt".to_string()]);
}

#[test]
fn excluded_directory_is_neither_printed_nor_searched() {
    let mut s = start("target");
    let root = s.next_dir().unwrap();
    let active = s.enter_dir(&root, &IgnoreFile::Contents("target\n".to_string()));
    assert_eq!(s.visit_entry(active, &entry("./target", true)), None);
    assert!(s.next_dir().is_none());
}

#[test]
fn insensitive_search_prints_path_as_listed() {
    let mut s = match Search::new("READ", Options { insensitive: true, verbose: false }) {
        Ok(s) => s,
        Err(_) => panic!("term is not empty"),
    };
    let root = s.next_dir().unwrap();
    let active = s.enter_dir(&root, &IgnoreFile::Missing);
    assert_eq!(s.visit_entry(active, &entry("./ReadMe.md", false)), Some("ReadMe.md".to_string()));
}
