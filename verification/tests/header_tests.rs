use filecat::header::{expand_header, has_placeholder, placeholder_chars, show_header};
use filecat::log::{
    format_log, invalid_entry, level_tag, passed_over, progress, push_decimal, tag_message,
    tag_paint, total, unreadable, LogLevel, LogLine,
};
use filecat::paint::{show, Paint};
use filecat::text::{chars_of, contains, count_char, matches_at, push_all, replace, same_chars, string_of};

fn chars(s: &str) -> Vec<char> {
    s.chars().collect()
}

fn replaced(s: &str, pat: &str, with: &str) -> String {
    replace(&chars(s), &chars(pat), &chars(with)).into_iter().collect()
}

#[test]
fn header_holds_the_path_in_the_place_of_the_placeholder() {
    assert_eq!(expand_header("==> {file}", "notes.md"), "==> notes.md");
    assert_eq!(expand_header("File: {file}", "notes.md"), "File: notes.md");
    assert_eq!(expand_header("{file}|{file}", "a"), "a|a");
    assert_eq!(expand_header("{file}", ""), "");
}

#[test]
fn header_shows_the_path_in_normal_form() {
    assert_eq!(expand_header("==> {file}", "./dir\\notes.md"), "==> dir/notes.md");
}

#[test]
fn header_without_placeholder_is_used_as_it_stands() {
    assert!(!has_placeholder("no placeholder"));
    assert_eq!(expand_header("no placeholder", "notes.md"), "no placeholder");
    assert_eq!(expand_header("{File} {fil} file}", "x"), "{File} {fil} file}");
    assert_eq!(expand_header("", "x"), "");
}

#[test]
fn placeholder_is_found_where_it_stands() {
    assert!(has_placeholder("==> {file}"));
    assert!(has_placeholder("{file}"));
    assert!(has_placeholder("a{file}b"));
    assert!(!has_placeholder("{file"));
    assert!(!has_placeholder("{ file }"));
    assert!(!has_placeholder(""));
    let mark: String = placeholder_chars().into_iter().collect();
    assert_eq!(mark, "{file}");
}

#[test]
fn path_is_not_searched_for_placeholders() {
    assert_eq!(expand_header("<{file}>", "{file}"), "<{file}>");
    assert_eq!(expand_header("{file}{file}", "{file}"), "{file}{file}");
}

#[test]
fn replace_goes_from_the_left_and_does_not_overlap() {
    assert_eq!(replaced("aaa", "aa", "b"), "ba");
    assert_eq!(replaced("abcabc", "bc", "X"), "aXaX");
    assert_eq!(replaced("abc", "", "X"), "abc");
    assert_eq!(replaced("", "a", "X"), "");
    assert_eq!(replaced("abc", "abcd", "X"), "abc");
    assert_eq!(replaced("abc", "abc", ""), "");
    for (s, p, w) in [("hello world", "o", "0"), ("a.b.c", ".", ".."), ("xx", "x", "xx")] {
        assert_eq!(replaced(s, p, w), s.replace(p, w));
    }
}

#[test]
fn text_helpers_agree_with_std() {
    assert_eq!(chars_of("héllo"), chars("héllo"));
    assert_eq!(string_of(&chars("héllo")), "héllo");
    assert!(matches_at(&chars("hello"), 2, &chars("ll")));
    assert!(!matches_at(&chars("hello"), 3, &chars("ll")));
    assert!(!matches_at(&chars("hello"), 4, &chars("ll")));
    assert!(matches_at(&chars("hello"), 5, &chars("")));
    assert!(!matches_at(&chars("hello"), 6, &chars("")));
    assert!(contains(&chars("hello"), &chars("lo")));
    assert!(contains(&chars("hello"), &chars("")));
    assert!(!contains(&chars("hello"), &chars("ol")));
    assert!(same_chars(&chars("abc"), &chars("abc")));
    assert!(!same_chars(&chars("abc"), &chars("abd")));
    assert!(!same_chars(&chars("abc"), &chars("ab")));
    assert_eq!(count_char(&chars("a/b//c"), '/'), 3);
    assert_eq!(count_char(&chars(""), '/'), 0);
    let mut v = chars("ab");
    push_all(&mut v, &chars("cd"));
    assert_eq!(v, chars("abcd"));
}

#[test]
fn header_without_color_holds_no_color_codes() {
    colored::control::set_override(true);
    let shown = show_header("File: {file}", "notes.md", false);
    assert_eq!(shown, "File: notes.md");
    assert!(!shown.contains('\u{1b}'));
}

#[test]
fn header_with_color_is_bold_blue_where_colors_are_on() {
    colored::control::set_override(true);
    assert_eq!(
        show_header("==> {file}", "notes.md", true),
        "\u{1b}[1;34m==> notes.md\u{1b}[0m"
    );
}

#[test]
fn header_with_color_is_plain_where_colors_are_off() {
    colored::control::set_override(false);
    assert_eq!(show_header("==> {file}", "notes.md", true), "==> notes.md");
}

#[test]
fn every_paint_has_its_code() {
    colored::control::set_override(true);
    assert_eq!(show(Paint::BoldBlue, true, "x"), "\u{1b}[1;34mx\u{1b}[0m");
    assert_eq!(show(Paint::Red, true, "x"), "\u{1b}[31mx\u{1b}[0m");
    assert_eq!(show(Paint::Yellow, true, "x"), "\u{1b}[33mx\u{1b}[0m");
    assert_eq!(show(Paint::BrightBlue, true, "x"), "\u{1b}[94mx\u{1b}[0m");
    assert_eq!(show(Paint::Red, false, "x"), "x");
}

#[test]
fn log_lines_are_tagged_by_level() {
    let line = |level, message: &str| LogLine { level, message: message.to_string() };
    assert_eq!(format_log(&line(LogLevel::Error, "boom"), false), "[error] boom");
    assert_eq!(format_log(&line(LogLevel::Warning, "hm"), false), "[warning] hm");
    assert_eq!(format_log(&line(LogLevel::Info, "fyi"), false), "[info] fyi");
    assert_eq!(level_tag(LogLevel::Error), "error");
    assert_eq!(level_tag(LogLevel::Warning), "warning");
    assert_eq!(level_tag(LogLevel::Info), "info");
    assert_eq!(tag_message("t", "m"), "[t] m");
}

#[test]
fn log_tags_are_colored_by_level_where_colors_are_on() {
    colored::control::set_override(true);
    let line = |level, message: &str| LogLine { level, message: message.to_string() };
    assert_eq!(
        format_log(&line(LogLevel::Error, "boom"), true),
        "[\u{1b}[31merror\u{1b}[0m] boom"
    );
    assert_eq!(
        format_log(&line(LogLevel::Warning, "hm"), true),
        "[\u{1b}[33mwarning\u{1b}[0m] hm"
    );
    assert_eq!(
        format_log(&line(LogLevel::Info, "fyi"), true),
        "[\u{1b}[94minfo\u{1b}[0m] fyi"
    );
    assert_eq!(tag_paint(LogLevel::Error), Paint::Red);
    assert_eq!(tag_paint(LogLevel::Warning), Paint::Yellow);
    assert_eq!(tag_paint(LogLevel::Info), Paint::BrightBlue);
}

#[test]
fn counts_are_written_in_decimal() {
    for n in [0usize, 1, 9, 10, 11, 99, 100, 12345, usize::MAX] {
        let mut out = String::from("n=");
        push_decimal(&mut out, n);
        assert_eq!(out, format!("n={}", n));
    }
}

#[test]
fn messages_have_their_wording() {
    assert_eq!(progress(3).message, "Files processed so far: 3");
    assert_eq!(progress(3).level, LogLevel::Info);
    assert_eq!(total(12).message, "Total files processed: 12");
    assert_eq!(total(12).level, LogLevel::Info);
    let line = invalid_entry("nope");
    assert_eq!(line.message, "nope is not a valid file or directory");
    assert_eq!(line.level, LogLevel::Error);
    let line = unreadable("f.txt", "permission denied");
    assert_eq!(line.message, "f.txt: permission denied");
    assert_eq!(line.level, LogLevel::Error);
    let line = passed_over("dir/", "permission denied");
    assert_eq!(line.message, "dir/: permission denied");
    assert_eq!(line.level, LogLevel::Warning);
}
