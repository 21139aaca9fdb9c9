use filecat::state::{compose, FileCat};
use filecat::log::LogLevel;

fn viewer(header: &str, verbose: bool, hex: bool, counter: bool, skip: bool) -> FileCat {
    FileCat::new(header.to_string(), verbose, hex, false, None, counter, skip, false)
}

#[test]
fn new_run_has_its_settings_and_no_file_counted() {
    let v = FileCat::new(
        "==> {file}".to_string(),
        true,
        false,
        true,
        Some("out.txt".to_string()),
        true,
        false,
        true,
    );
    assert_eq!(v.header(), "==> {file}");
    assert!(v.verbose());
    assert!(!v.hex());
    assert!(v.use_color());
    assert_eq!(v.output(), Some("out.txt"));
    assert!(v.counter());
    assert!(!v.skip_non_text());
    assert!(v.use_log_color());
    assert_eq!(v.file_count(), 0);
    assert!(v.can_count());
    let v = viewer("h", false, true, false, true);
    assert!(!v.verbose());
    assert!(v.hex());
    assert!(!v.use_color());
    assert_eq!(v.output(), None);
    assert!(!v.counter());
    assert!(v.skip_non_text());
    assert!(!v.use_log_color());
}

#[test]
fn file_output_is_header_then_content() {
    let mut v = viewer("File: {file}", false, false, false, false);
    let out = v.process_file("notes.md", b"hi\n");
    assert_eq!(out.text, "File: notes.md\nhi\n\n");
    assert!(out.text.starts_with("File: notes.md\nhi\n"));
    assert!(!out.text.contains('\u{1b}'));
    assert!(out.log.is_none());
    assert_eq!(v.file_count(), 0);
}

#[test]
fn verbose_file_output_adds_nothing_to_the_content() {
    let mut v = viewer("File: {file}", true, false, false, false);
    let out = v.process_file("notes.md", b"hi\n");
    assert_eq!(out.text, "File: notes.md\nhi\n");
}

#[test]
fn default_header_marks_the_file() {
    let mut v = viewer("==> {file}", false, false, false, false);
    let out = v.process_file("./src\\main.rs", b"fn main() {}");
    assert_eq!(out.text, "==> src/main.rs\nfn main() {}\n");
}

#[test]
fn binary_file_is_dumped_where_hex_is_set() {
    let mut v = viewer("==> {file}", false, true, false, false);
    let out = v.process_file("b.bin", &[0, 1, 2]);
    assert_eq!(out.text, "==> b.bin\n00000000  00 01 02 \n");
}

#[test]
fn binary_file_is_replaced_by_the_marker_where_skipped() {
    let mut v = viewer("==> {file}", false, true, false, true);
    let out = v.process_file("b.bin", &[0, 1, 2]);
    assert_eq!(out.text, "==> b.bin\nNon-text file\n");
}

#[test]
fn binary_file_is_filtered_without_flags() {
    let mut v = viewer("==> {file}", false, false, false, false);
    let out = v.process_file("b.bin", &[b'a', 0]);
    assert_eq!(out.text, "==> b.bin\na'\\0' \n");
}

#[test]
fn text_file_is_never_dumped_nor_skipped() {
    let mut v = viewer("==> {file}", false, true, false, true);
    let out = v.process_file("a.txt", b"text");
    assert_eq!(out.text, "==> a.txt\ntext\n");
}

#[test]
fn every_file_is_counted_where_files_are_counted() {
    let mut v = viewer("==> {file}", false, true, true, false);
    let out = v.process_file("a.txt", b"one");
    let line = out.log.unwrap();
    assert_eq!(line.level, LogLevel::Info);
    assert_eq!(line.message, "Files processed so far: 1");
    let out = v.process_file("b.bin", &[0]);
    assert_eq!(out.log.unwrap().message, "Files processed so far: 2");
    let out = v.process_file("c.txt", b"");
    assert_eq!(out.log.unwrap().message, "Files processed so far: 3");
    assert_eq!(v.file_count(), 3);
}

#[test]
fn header_is_colored_where_asked_and_colors_are_on() {
    colored::control::set_override(true);
    let mut v =
        FileCat::new("==> {file}".to_string(), false, false, true, None, false, false, false);
    let out = v.process_file("a.txt", b"x");
    assert_eq!(out.text, "\u{1b}[1;34m==> a.txt\u{1b}[0m\nx\n");
}

#[test]
fn compose_puts_a_line_end_behind_the_header() {
    assert_eq!(compose("head", "body"), "head\nbody");
    assert_eq!(compose("", ""), "\n");
}
