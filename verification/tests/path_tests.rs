use filecat::exclude::{ExclusionMatcher, ExclusionRule};
use filecat::glob::PatternError;
use filecat::path::{normalize_chars, normalize_path};

fn matcher(patterns: &[&str]) -> ExclusionMatcher {
    let owned: Vec<String> = patterns.iter().map(|p| p.to_string()).collect();
    ExclusionMatcher::new(&owned).unwrap()
}

#[test]
fn normal_form_writes_separators_as_slashes() {
    assert_eq!(normalize_path("a\\b\\c.txt"), "a/b/c.txt");
    assert_eq!(normalize_path("a/b\\c"), "a/b/c");
    assert_eq!(normalize_path("plain"), "plain");
    assert_eq!(normalize_path(""), "");
}

#[test]
fn normal_form_drops_leading_current_directory_markers() {
    assert_eq!(normalize_path("./a.txt"), "a.txt");
    assert_eq!(normalize_path(".\\a.txt"), "a.txt");
    assert_eq!(normalize_path("././a.txt"), "a.txt");
    assert_eq!(normalize_path("./.hidden"), ".hidden");
    assert_eq!(normalize_path("../a.txt"), "../a.txt");
    assert_eq!(normalize_path("a/./b"), "a/./b");
    assert_eq!(normalize_path("./"), "");
    assert_eq!(normalize_path("."), ".");
    assert_eq!(normalize_path(".a"), ".a");
}

#[test]
fn normal_form_of_a_normal_form_is_itself() {
    for p in ["./a\\b", "././x", "a/b/c", ".\\.\\y", "", ".", "./", "\\a"] {
        let once = normalize_path(p);
        assert_eq!(normalize_path(&once), once);
    }
}

#[test]
fn normal_form_of_characters_agrees_with_the_string_form() {
    let chars: Vec<char> = ".\\dir\\f.txt".chars().collect();
    let normal: String = normalize_chars(&chars).into_iter().collect();
    assert_eq!(normal, "dir/f.txt");
}

#[test]
fn exact_rule_excludes_the_same_path() {
    let m = matcher(&["secret.txt"]);
    assert!(m.is_excluded("secret.txt"));
    assert!(m.is_excluded("./secret.txt"));
    assert!(!m.is_excluded("a.txt"));
    assert!(!m.is_excluded("dir/secret.txt"));
    assert!(!m.is_excluded("Secret.txt"));
    assert!(!m.is_excluded("secret.txt.bak"));
}

#[test]
fn rule_with_current_directory_marker_excludes_the_plain_path() {
    let m = matcher(&["./secret.txt"]);
    assert!(m.is_excluded("secret.txt"));
    assert!(m.is_excluded("./secret.txt"));
    assert!(m.is_excluded(".\\secret.txt"));
}

#[test]
fn glob_rule_excludes_what_it_stands_for() {
    let m = matcher(&["*.log", "target/**", "build/[0-9]*"]);
    assert!(m.is_excluded("a.log"));
    assert!(m.is_excluded("./a.log"));
    assert!(!m.is_excluded("logs/a.log"));
    assert!(m.is_excluded("target/debug/x"));
    assert!(m.is_excluded("target\\debug\\x"));
    assert!(!m.is_excluded("target"));
    assert!(m.is_excluded("build/7zip"));
    assert!(!m.is_excluded("build/zip"));
    assert!(!m.is_excluded("src/main.rs"));
}

#[test]
fn exclusion_is_the_same_for_either_separator_and_with_current_directory_marker() {
    let m = matcher(&["src/gen/*.rs", "docs", "a\\b"]);
    let pairs = [
        ("src/gen/x.rs", "src\\gen\\x.rs"),
        ("src/gen/x.rs", "./src/gen/x.rs"),
        ("src/gen/x.rs", ".\\src\\gen/x.rs"),
        ("docs", "./docs"),
        ("a/b", "a\\b"),
        ("src/main.rs", "src\\main.rs"),
        ("other", "./other"),
        ("src/gen/deep/x.rs", "src\\gen\\deep\\x.rs"),
    ];
    for (p, q) in pairs {
        assert_eq!(m.is_excluded(p), m.is_excluded(q), "{} and {}", p, q);
    }
    assert!(m.is_excluded("src\\gen\\x.rs"));
    assert!(m.is_excluded("./docs"));
    assert!(m.is_excluded("a/b"));
    assert!(!m.is_excluded("src\\main.rs"));
}

#[test]
fn without_rules_nothing_is_excluded() {
    let m = matcher(&[]);
    assert_eq!(m.len(), 0);
    assert!(!m.is_excluded("anything"));
    assert!(!m.is_excluded(""));
}

#[test]
fn malformed_exclusion_pattern_aborts_construction() {
    let patterns = vec!["*.txt".to_string(), "bad[".to_string(), "[z-a]".to_string()];
    let err = ExclusionMatcher::new(&patterns).unwrap_err();
    assert_eq!(err.index, 1);
    assert_eq!(err.pattern, "bad[");
    assert_eq!(err.error, PatternError::UnclosedClass(3));
}

#[test]
fn malformed_exclusion_pattern_is_judged_in_normal_form() {
    let patterns = vec!["./[z-a]".to_string()];
    let err = ExclusionMatcher::new(&patterns).unwrap_err();
    assert_eq!(err.index, 0);
    assert_eq!(err.pattern, "./[z-a]");
    assert_eq!(err.error, PatternError::ReversedRange(0));
}

#[test]
fn rule_holds_its_pattern_in_normal_form() {
    let rule = ExclusionRule::compile(".\\out\\*.o").unwrap();
    assert_eq!(rule.pattern_text(), "out/*.o");
    let path: Vec<char> = "out/a.o".chars().collect();
    assert!(rule.covers(&path));
    let path: Vec<char> = "out/*.o".chars().collect();
    assert!(rule.covers(&path));
    let path: Vec<char> = "out/a/b.o".chars().collect();
    assert!(!rule.covers(&path));
    assert_eq!(ExclusionRule::compile("[").unwrap_err(), PatternError::UnclosedClass(0));
}
