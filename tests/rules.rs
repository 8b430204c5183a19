use fuzzy_find::rules::{glob_matches, parse_line, parse_text};
use fuzzy_find::{ExtendError, IgnoreFile, Options, RuleSet};

fn opts(insensitive: bool) -> Options {
    Options { insensitive, verbose: false }
}

fn chars(s: &str) -> Vec<char> {
    s.chars().collect()
}

fn rules_from(text: &str, insensitive: bool) -> RuleSet {
    match RuleSet::new_default().extend(&IgnoreFile::Contents(text.to_string()), &opts(insensitive)) {
        Ok(r) => r,
        Err(_) => panic!("contents always extend"),
    }
}

#[test]
fn blank_and_comment_lines_hold_no_pattern() {
    assert!(parse_line(&chars("")).is_none());
    assert!(parse_line(&chars("  \t\r")).is_none());
    assert!(parse_line(&chars("# notes")).is_none());
    assert!(parse_line(&chars("!")).is_none());
    assert!(parse_line(&chars("/")).is_none());
}

#[test]
fn line_flags_are_read() {
    let p = parse_line(&chars("build/")).unwrap();
    assert_eq!(p.glob, chars("build"));
    assert!(p.dir_only && !p.anchored && !p.negated);

    let p = parse_line(&chars("/target")).unwrap();
    assert_eq!(p.glob, chars("target"));
    assert!(p.anchored && !p.dir_only);

    let p = parse_line(&chars("docs/*.md")).unwrap();
    assert!(p.anchored);

    let p = parse_line(&chars("!keep.log  \r")).unwrap();
    assert_eq!(p.glob, chars("keep.log"));
    assert!(p.negated);
}

#[test]
fn text_is_split_into_lines() {
    let ps = parse_text("*.log\n\n# c\n!keep.log\r\nlast");
    assert_eq!(ps.len(), 3);
    assert_eq!(ps[0].glob, chars("*.log"));
    assert_eq!(ps[1].glob, chars("keep.log"));
    assert_eq!(ps[2].glob, chars("last"));
    assert_eq!(parse_text("").len(), 0);
}

#[test]
fn glob_wildcards() {
    assert!(glob_matches(&chars("*.log"), &chars("x.log")));
    assert!(glob_matches(&chars("*.log"), &chars(".log")));
    assert!(!glob_matches(&chars("*.log"), &chars("a/x.log")));
    assert!(glob_matches(&chars("?.rs"), &chars("a.rs")));
    assert!(!glob_matches(&chars("?.rs"), &chars("ab.rs")));
    assert!(glob_matches(&chars("a*b*c"), &chars("aXbYc")));
    assert!(!glob_matches(&chars("abc"), &chars("abd")));
}

#[test]
fn default_rule_set_excludes_nothing() {
    let r = RuleSet::new_default();
    assert_eq!(r.len(), 0);
    assert!(!r.is_excluded("target", true, &opts(false)));
}

#[test]
fn later_pattern_wins() {
    let r = rules_from("*.log\n!keep.log\n", false);
    assert!(r.is_excluded("a.log", false, &opts(false)));
    assert!(!r.is_excluded("keep.log", false, &opts(false)));
    assert!(!r.is_excluded("dir/keep.log", false, &opts(false)));
    assert!(!r.is_excluded("x.txt", false, &opts(false)));
    let r = rules_from("!keep.log\n*.log\n", false);
    assert!(r.is_excluded("keep.log", false, &opts(false)));
}

#[test]
fn directory_only_patterns_skip_files() {
    let r = rules_from("build/\n", false);
    assert!(r.is_excluded("build", true, &opts(false)));
    assert!(!r.is_excluded("build", false, &opts(false)));
    assert!(r.is_excluded("src/build", true, &opts(false)));
}

#[test]
fn anchored_patterns_match_whole_path() {
    let r = rules_from("/target\n", false);
    assert!(r.is_excluded("target", true, &opts(false)));
    assert!(!r.is_excluded("x/target", true, &opts(false)));
    let r = rules_from("src/*.rs\n", false);
    assert!(r.is_excluded("src/a.rs", false, &opts(false)));
    assert!(!r.is_excluded("lib/src/a.rs", false, &opts(false)));
}

#[test]
fn unanchored_patterns_match_any_segment() {
    let r = rules_from("node_modules\n", false);
    assert!(r.is_excluded("web/node_modules", true, &opts(false)));
    assert!(r.is_excluded("web/node_modules/x.js", false, &opts(false)));
}

#[test]
fn case_setting_applies_to_patterns_and_paths() {
    let r = rules_from("*.LOG\n", true);
    assert!(r.is_excluded("A.log", false, &opts(true)));
    let r = rules_from("*.LOG\n", false);
    assert!(!r.is_excluded("A.log", false, &opts(false)));
}

#[test]
fn missing_or_unreadable_files_do_not_extend() {
    let base = RuleSet::new_default();
    let r = base.extend(&IgnoreFile::Missing, &opts(false));
    assert_eq!(r.err(), Some(ExtendError::NotFound));
    let r = base.extend(&IgnoreFile::Unreadable, &opts(false));
    assert_eq!(r.err(), Some(ExtendError::Unreadable));
}

#[test]
fn extension_leaves_the_parent_alone() {
    let parent = rules_from("*.tmp\n", false);
    let child = match parent.extend(&IgnoreFile::Contents("*.txt\n".to_string()), &opts(false)) {
        Ok(c) => c,
        Err(_) => panic!("contents always extend"),
    };
    assert_eq!(parent.len(), 1);
    assert_eq!(child.len(), 2);
    assert!(!parent.is_excluded("a.txt", false, &opts(false)));
    assert!(child.is_excluded("a.txt", false, &opts(false)));
    assert!(child.is_excluded("a.tmp", false, &opts(false)));
}
