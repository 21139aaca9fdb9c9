use filecat::glob::{
    class_covers, count_stars, find_close, item_covers, read_class, ClassItem, Pattern,
    PatternError,
};

fn matches(pattern: &str, path: &str) -> bool {
    Pattern::parse(pattern).unwrap().matches(path)
}

fn chars(s: &str) -> Vec<char> {
    s.chars().collect()
}

#[test]
fn literal_pattern_matches_itself_only() {
    assert!(matches("secret.txt", "secret.txt"));
    assert!(!matches("secret.txt", "secret.txt2"));
    assert!(!matches("secret.txt", "Secret.txt"));
    assert!(!matches("secret.txt", "dir/secret.txt"));
    assert!(matches("", ""));
    assert!(!matches("", "a"));
}

#[test]
fn question_mark_takes_one_character_but_no_separator() {
    assert!(matches("a?c", "abc"));
    assert!(matches("a?c", "aéc"));
    assert!(!matches("a?c", "ac"));
    assert!(!matches("a?c", "abbc"));
    assert!(!matches("a?c", "a/c"));
}

#[test]
fn star_takes_any_run_within_a_component() {
    assert!(matches("*.txt", "a.txt"));
    assert!(matches("*.txt", ".txt"));
    assert!(matches("*.txt", "secret.txt"));
    assert!(!matches("*.txt", "b.bin"));
    assert!(!matches("*.txt", "dir/a.txt"));
    assert!(matches("a*b*c", "abc"));
    assert!(matches("a*b*c", "axxbyyc"));
    assert!(matches("a*b*c", "abbbc"));
    assert!(!matches("a*b*c", "axxbyy"));
    assert!(matches("*", ""));
    assert!(matches("*", "anything"));
    assert!(!matches("*", "a/b"));
    assert!(matches("src/*.rs", "src/lib.rs"));
    assert!(!matches("src/*.rs", "src/bin/main.rs"));
}

#[test]
fn double_star_crosses_components() {
    assert!(matches("**", ""));
    assert!(matches("**", "a/b/c"));
    assert!(matches("**/*.rs", "src/bin/main.rs"));
    assert!(matches("**/*.rs", "src/lib.rs"));
    assert!(!matches("**/*.rs", "lib.rs"));
    assert!(matches("target/**", "target/debug/build"));
    assert!(matches("a**b", "a/x/y/b"));
    assert!(matches("a***b", "a/b"));
    assert!(!matches("target/**", "src/target"));
}

#[test]
fn class_takes_one_character_of_the_set() {
    assert!(matches("[abc]", "a"));
    assert!(matches("[abc]", "c"));
    assert!(!matches("[abc]", "d"));
    assert!(!matches("[abc]", ""));
    assert!(!matches("[abc]", "ab"));
    assert!(matches("[a-c]x", "bx"));
    assert!(!matches("[a-c]x", "dx"));
    assert!(matches("file[0-9].txt", "file7.txt"));
    assert!(!matches("file[0-9].txt", "fileA.txt"));
    assert!(matches("[a-]", "-"));
    assert!(matches("[a-]", "a"));
    assert!(matches("[]]", "]"));
    assert!(matches("[]a]", "a"));
    assert!(matches("[a-cx-z]", "y"));
}

#[test]
fn negated_class_takes_one_character_outside_the_set() {
    assert!(matches("[!abc]", "d"));
    assert!(!matches("[!abc]", "a"));
    assert!(!matches("[!abc]", ""));
    assert!(matches("[!]]", "a"));
    assert!(!matches("[!]]", "]"));
    assert!(matches("[!a-c]", "z"));
    assert!(!matches("[!a-c]", "b"));
}

#[test]
fn class_never_takes_a_separator() {
    assert!(!matches("[/]", "/"));
    assert!(!matches("[!a]", "/"));
    assert!(!matches("a[.-0]b", "a/b"));
    assert!(matches("a[.-0]b", "a.b"));
}

#[test]
fn unclosed_class_is_refused() {
    assert_eq!(Pattern::parse("[").unwrap_err(), PatternError::UnclosedClass(0));
    assert_eq!(Pattern::parse("ab[cd").unwrap_err(), PatternError::UnclosedClass(2));
    assert_eq!(Pattern::parse("[]").unwrap_err(), PatternError::UnclosedClass(0));
    assert_eq!(Pattern::parse("[!]").unwrap_err(), PatternError::UnclosedClass(0));
    assert_eq!(Pattern::parse("[!").unwrap_err(), PatternError::UnclosedClass(0));
    assert_eq!(Pattern::parse("a*[").unwrap_err(), PatternError::UnclosedClass(2));
}

#[test]
fn reversed_range_is_refused() {
    assert_eq!(Pattern::parse("[z-a]").unwrap_err(), PatternError::ReversedRange(0));
    assert_eq!(Pattern::parse("x[a-c9-0]").unwrap_err(), PatternError::ReversedRange(1));
}

#[test]
fn leftmost_fault_is_the_one_given() {
    assert_eq!(Pattern::parse("[z-a][").unwrap_err(), PatternError::ReversedRange(0));
    assert_eq!(Pattern::parse("a[b]c[").unwrap_err(), PatternError::UnclosedClass(5));
}

#[test]
fn closing_bracket_alone_is_literal() {
    assert!(matches("a]b", "a]b"));
    assert!(matches("a-b", "a-b"));
    assert!(matches("a!b", "a!b"));
}

#[test]
fn pattern_helpers_report_separators_and_depth() {
    let p = Pattern::parse("src/*/x.rs").unwrap();
    assert_eq!(p.count_separators(), 2);
    assert!(!p.crosses_directories());
    let p = Pattern::parse("**/x.rs").unwrap();
    assert_eq!(p.count_separators(), 1);
    assert!(p.crosses_directories());
    let p = Pattern::parse("[/]").unwrap();
    assert_eq!(p.count_separators(), 0);
}

#[test]
fn class_items_cover_their_characters() {
    assert!(item_covers(ClassItem::One('a' as u32), 'a'));
    assert!(!item_covers(ClassItem::One('a' as u32), 'b'));
    assert!(item_covers(ClassItem::Range('a' as u32, 'c' as u32), 'b'));
    assert!(!item_covers(ClassItem::Range('a' as u32, 'c' as u32), 'd'));
    let items = [ClassItem::One('x' as u32), ClassItem::Range('0' as u32, '9' as u32)];
    assert!(class_covers(&items, '5'));
    assert!(class_covers(&items, 'x'));
    assert!(!class_covers(&items, 'y'));
    assert!(!class_covers(&[], 'y'));
}

#[test]
fn scanning_helpers_count_and_find() {
    assert_eq!(count_stars(&chars("a***b"), 1), 3);
    assert_eq!(count_stars(&chars("a***b"), 0), 0);
    assert_eq!(count_stars(&chars("**"), 2), 0);
    assert_eq!(find_close(&chars("ab]c"), 0), 2);
    assert_eq!(find_close(&chars("ab]c"), 3), 4);
    assert_eq!(
        read_class(&chars("a-cx"), 0, 4),
        Some(vec![ClassItem::Range('a' as u32, 'c' as u32), ClassItem::One('x' as u32)])
    );
    assert_eq!(read_class(&chars("c-a"), 0, 3), None);
    assert_eq!(
        read_class(&chars("a-"), 0, 2),
        Some(vec![ClassItem::One('a' as u32), ClassItem::One('-' as u32)])
    );
}

#[test]
fn long_inputs_are_matched_without_blowup() {
    let pattern = "*a*a*a*a*a*a*a*a*b";
    let path = "a".repeat(2000);
    assert!(!matches(pattern, &path));
    let mut ok = path.clone();
    ok.push('b');
    assert!(matches(pattern, &ok));
}
