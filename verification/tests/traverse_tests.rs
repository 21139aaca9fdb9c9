use filecat::exclude::ExclusionMatcher;
use filecat::expand::{Child, Expansion};
use filecat::state::FileCat;
use filecat::log::{format_log, LogLevel};
use filecat::traverse::{EntryKind, Event, Listing, Request, Traversal};
use std::collections::BTreeMap;

enum Node {
    File(Vec<u8>),
    Dir(Vec<&'static str>),
    Locked,
}

struct Disk {
    nodes: BTreeMap<String, Node>,
}

struct Outcome {
    output: String,
    logs: Vec<String>,
    asked: Vec<String>,
    count: usize,
}

fn disk(nodes: Vec<(&str, Node)>) -> Disk {
    Disk { nodes: nodes.into_iter().map(|(p, n)| (p.to_string(), n)).collect() }
}

fn join(dir: &str, name: &str) -> String {
    if dir == "." {
        name.to_string()
    } else {
        format!("{}/{}", dir.trim_end_matches('/'), name)
    }
}

fn rules(patterns: &[&str]) -> ExclusionMatcher {
    let owned: Vec<String> = patterns.iter().map(|p| p.to_string()).collect();
    ExclusionMatcher::new(&owned).unwrap()
}

fn plain(counter: bool) -> FileCat {
    FileCat::new("==> {file}".to_string(), false, false, false, None, counter, false, false)
}

fn answer(disk: &Disk, request: &Request) -> Option<Event> {
    match request {
        Request::Finish => None,
        Request::Inspect(path) => Some(Event::Kind(match disk.nodes.get(path) {
            Some(Node::File(_)) | Some(Node::Locked) => EntryKind::File,
            Some(Node::Dir(_)) => EntryKind::Directory,
            None => EntryKind::Other,
        })),
        Request::Read(path) => Some(match disk.nodes.get(path) {
            Some(Node::File(bytes)) => Event::Content(bytes.clone()),
            _ => Event::ReadFailed("permission denied".to_string()),
        }),
        Request::List(path) => Some(match disk.nodes.get(path) {
            Some(Node::Dir(names)) => Event::Children(Listing {
                children: names.iter().map(|n| join(path, n)).collect(),
                failures: Vec::new(),
            }),
            _ => Event::ListFailed("not a directory".to_string()),
        }),
    }
}

fn walk(
    disk: &Disk,
    viewer: FileCat,
    matcher: ExclusionMatcher,
    recursive: bool,
    entries: &[&str],
) -> Outcome {
    let entries: Vec<String> = entries.iter().map(|p| p.to_string()).collect();
    let mut walk = Traversal::new(viewer, matcher, recursive, entries);
    let mut out = Outcome { output: String::new(), logs: Vec::new(), asked: Vec::new(), count: 0 };
    let mut step = walk.start();
    loop {
        out.output.push_str(&step.output);
        for line in &step.logs {
            out.logs.push(format_log(line, false));
        }
        match &step.request {
            Request::Inspect(p) => out.asked.push(format!("inspect {}", p)),
            Request::Read(p) => out.asked.push(format!("read {}", p)),
            Request::List(p) => out.asked.push(format!("list {}", p)),
            Request::Finish => {}
        }
        match answer(disk, &step.request) {
            Some(event) => {
                assert!(walk.viewer().can_count());
                step = walk.advance(event);
            }
            None => break,
        }
    }
    assert!(walk.is_idle());
    out.count = walk.viewer().file_count();
    out
}

fn expand(disk: &Disk, matcher: &ExclusionMatcher, patterns: &[&str]) -> (Vec<String>, Vec<String>) {
    let owned: Vec<String> = patterns.iter().map(|p| p.to_string()).collect();
    let mut expansion = Expansion::new(&owned).unwrap();
    let mut warnings = Vec::new();
    let mut request = expansion.start(matcher);
    while let Some(dir) = request {
        let key = if dir == "." { ".".to_string() } else { dir.trim_end_matches('/').to_string() };
        match disk.nodes.get(&key) {
            Some(Node::Dir(names)) => {
                let children: Vec<Child> = names
                    .iter()
                    .map(|n| Child {
                        name: n.to_string(),
                        is_dir: matches!(disk.nodes.get(&join(&key, n)), Some(Node::Dir(_))),
                    })
                    .collect();
                request = expansion.supply(matcher, &children);
            }
            _ => {
                warnings.push(format_log(&expansion.pass_over(matcher, "cannot list"), false));
                request = expansion.request();
            }
        }
    }
    assert!(expansion.is_done());
    (expansion.into_found(), warnings)
}

fn sample_disk() -> Disk {
    disk(vec![
        (".", Node::Dir(vec!["a.txt", "b.bin", "docs", "secret.txt", "src"])),
        ("a.txt", Node::File(b"alpha\n".to_vec())),
        ("b.bin", Node::File(vec![0, 1, 2])),
        ("secret.txt", Node::File(b"hush\n".to_vec())),
        ("docs", Node::Dir(vec!["guide.md", "img"])),
        ("docs/guide.md", Node::File(b"guide\n".to_vec())),
        ("docs/img", Node::Dir(vec!["logo.txt"])),
        ("docs/img/logo.txt", Node::File(b"logo\n".to_vec())),
        ("src", Node::Dir(vec!["gen", "lib.rs", "main.rs"])),
        ("src/lib.rs", Node::File(b"lib\n".to_vec())),
        ("src/main.rs", Node::File(b"main\n".to_vec())),
        ("src/gen", Node::Dir(vec!["x.rs"])),
        ("src/gen/x.rs", Node::File(b"x\n".to_vec())),
        ("locked.txt", Node::Locked),
    ])
}

#[test]
fn single_file_is_shown_under_its_header() {
    let d = disk(vec![("notes.md", Node::File(b"hi\n".to_vec()))]);
    let viewer =
        FileCat::new("File: {file}".to_string(), false, false, false, None, false, false, false);
    let out = walk(&d, viewer, rules(&[]), false, &["notes.md"]);
    assert!(out.output.starts_with("File: notes.md\nhi\n"));
    assert_eq!(out.output, "File: notes.md\nhi\n\n");
    assert!(!out.output.contains('\u{1b}'));
    assert!(out.logs.is_empty());
    assert_eq!(out.asked, vec!["inspect notes.md", "read notes.md"]);
}

#[test]
fn expanding_and_walking_with_an_exclusion_shows_only_what_is_left() {
    let d = disk(vec![
        (".", Node::Dir(vec!["a.txt", "b.bin", "secret.txt"])),
        ("a.txt", Node::File(b"alpha\n".to_vec())),
        ("b.bin", Node::File(vec![0, 1, 2])),
        ("secret.txt", Node::File(b"hush\n".to_vec())),
    ]);
    let matcher = rules(&["secret.txt"]);
    let (found, warnings) = expand(&d, &matcher, &["*.txt"]);
    assert_eq!(found, vec!["a.txt"]);
    assert!(warnings.is_empty());
    let entries: Vec<&str> = found.iter().map(|s| s.as_str()).collect();
    let out = walk(&d, plain(false), matcher, false, &entries);
    assert_eq!(out.output, "==> a.txt\nalpha\n\n");
    assert_eq!(out.asked, vec!["inspect a.txt", "read a.txt"]);
}

#[test]
fn three_files_are_counted_one_by_one_and_in_total() {
    let d = sample_disk();
    let out = walk(&d, plain(true), rules(&[]), false, &["a.txt", "src/lib.rs", "src/main.rs"]);
    assert_eq!(
        out.logs,
        vec![
            "[info] Files processed so far: 1",
            "[info] Files processed so far: 2",
            "[info] Files processed so far: 3",
            "[info] Total files processed: 3",
        ]
    );
    assert_eq!(out.count, 3);
}

#[test]
fn nothing_is_counted_where_files_are_not_counted() {
    let d = sample_disk();
    let out = walk(&d, plain(false), rules(&[]), false, &["a.txt", "src/lib.rs"]);
    assert!(out.logs.is_empty());
    assert_eq!(out.count, 0);
}

#[test]
fn total_is_logged_even_when_nothing_was_shown() {
    let d = sample_disk();
    let out = walk(&d, plain(true), rules(&[]), false, &[]);
    assert_eq!(out.logs, vec!["[info] Total files processed: 0"]);
    assert_eq!(out.output, "");
}

#[test]
fn directories_are_walked_in_listing_order_before_what_follows() {
    let d = sample_disk();
    let out = walk(&d, plain(false), rules(&[]), true, &["src", "a.txt"]);
    assert_eq!(
        out.asked,
        vec![
            "inspect src",
            "list src",
            "inspect src/gen",
            "list src/gen",
            "inspect src/gen/x.rs",
            "read src/gen/x.rs",
            "inspect src/lib.rs",
            "read src/lib.rs",
            "inspect src/main.rs",
            "read src/main.rs",
            "inspect a.txt",
            "read a.txt",
        ]
    );
    assert_eq!(
        out.output,
        "==> src/gen/x.rs\nx\n\n==> src/lib.rs\nlib\n\n==> src/main.rs\nmain\n\n==> a.txt\nalpha\n\n"
    );
}

#[test]
fn directory_is_not_entered_without_recursion() {
    let d = sample_disk();
    let out = walk(&d, plain(true), rules(&[]), false, &["src", "a.txt"]);
    assert_eq!(out.asked, vec!["inspect src", "inspect a.txt", "read a.txt"]);
    assert_eq!(out.output, "==> a.txt\nalpha\n\n");
    assert_eq!(
        out.logs,
        vec!["[info] Files processed so far: 1", "[info] Total files processed: 1"]
    );
}

#[test]
fn excluded_entry_is_passed_over_in_silence() {
    let d = sample_disk();
    let out = walk(&d, plain(false), rules(&["secret.txt"]), false, &["secret.txt", "a.txt"]);
    assert_eq!(out.asked, vec!["inspect a.txt", "read a.txt"]);
    assert!(out.logs.is_empty());
    let out = walk(&d, plain(false), rules(&["*.txt"]), false, &["./secret.txt", "a.txt"]);
    assert!(out.asked.is_empty());
    assert_eq!(out.output, "");
}

#[test]
fn excluded_directory_is_never_listed() {
    let d = sample_disk();
    let out = walk(&d, plain(false), rules(&["src/gen"]), true, &["src"]);
    assert_eq!(
        out.asked,
        vec![
            "inspect src",
            "list src",
            "inspect src/lib.rs",
            "read src/lib.rs",
            "inspect src/main.rs",
            "read src/main.rs",
        ]
    );
    let out = walk(&d, plain(false), rules(&["docs"]), true, &["docs", "a.txt"]);
    assert_eq!(out.asked, vec!["inspect a.txt", "read a.txt"]);
}

#[test]
fn excluded_children_are_pruned_by_glob() {
    let d = sample_disk();
    let out = walk(&d, plain(false), rules(&["**/*.rs"]), true, &["src", "docs"]);
    assert_eq!(
        out.asked,
        vec![
            "inspect src",
            "list src",
            "inspect src/gen",
            "list src/gen",
            "inspect docs",
            "list docs",
            "inspect docs/guide.md",
            "read docs/guide.md",
            "inspect docs/img",
            "list docs/img",
            "inspect docs/img/logo.txt",
            "read docs/img/logo.txt",
        ]
    );
}

#[test]
fn entry_that_is_nothing_is_an_error_and_the_walk_goes_on() {
    let d = sample_disk();
    let out = walk(&d, plain(true), rules(&[]), false, &["ghost", "a.txt"]);
    assert_eq!(
        out.logs,
        vec![
            "[error] ghost is not a valid file or directory",
            "[info] Files processed so far: 1",
            "[info] Total files processed: 1",
        ]
    );
    assert_eq!(out.output, "==> a.txt\nalpha\n\n");
}

#[test]
fn unreadable_file_is_an_error_and_the_walk_goes_on() {
    let d = sample_disk();
    let out = walk(&d, plain(true), rules(&[]), false, &["locked.txt", "a.txt"]);
    assert_eq!(
        out.logs,
        vec![
            "[error] locked.txt: permission denied",
            "[info] Files processed so far: 1",
            "[info] Total files processed: 1",
        ]
    );
    assert_eq!(out.output, "==> a.txt\nalpha\n\n");
    assert_eq!(out.count, 1);
}

#[test]
fn listing_failures_are_logged_and_the_rest_is_walked() {
    let viewer = plain(false);
    let mut walk = Traversal::new(viewer, rules(&[]), true, vec!["d".to_string()]);
    let step = walk.start();
    assert!(matches!(step.request, Request::Inspect(ref p) if p == "d"));
    let step = walk.advance(Event::Kind(EntryKind::Directory));
    assert!(matches!(step.request, Request::List(ref p) if p == "d"));
    let step = walk.advance(Event::Children(Listing {
        children: vec!["d/one".to_string(), "d/two".to_string()],
        failures: vec!["broken entry".to_string(), "stale handle".to_string()],
    }));
    let logs: Vec<String> = step.logs.iter().map(|l| format_log(l, false)).collect();
    assert_eq!(logs, vec!["[error] d: broken entry", "[error] d: stale handle"]);
    assert!(matches!(step.request, Request::Inspect(ref p) if p == "d/one"));
    let step = walk.advance(Event::Kind(EntryKind::Other));
    assert!(step.logs.is_empty());
    assert!(matches!(step.request, Request::Inspect(ref p) if p == "d/two"));
    let step = walk.advance(Event::Kind(EntryKind::File));
    assert!(matches!(step.request, Request::Read(ref p) if p == "d/two"));
    let step = walk.advance(Event::ListFailed("what".to_string()));
    assert!(step.logs.is_empty());
    assert_eq!(step.output, "");
    assert!(matches!(step.request, Request::Read(ref p) if p == "d/two"));
    let step = walk.advance(Event::Content(b"2".to_vec()));
    assert_eq!(step.output, "==> d/two\n2\n");
    assert!(matches!(step.request, Request::Finish));
    let step = walk.advance(Event::Content(b"again".to_vec()));
    assert_eq!(step.output, "");
    assert!(matches!(step.request, Request::Finish));
}

#[test]
fn directory_that_cannot_be_listed_is_an_error_and_the_walk_goes_on() {
    let mut walk = Traversal::new(
        plain(false),
        rules(&[]),
        true,
        vec!["d".to_string(), "e".to_string()],
    );
    walk.start();
    walk.advance(Event::Kind(EntryKind::Directory));
    let step = walk.advance(Event::ListFailed("permission denied".to_string()));
    assert_eq!(step.logs.len(), 1);
    assert_eq!(step.logs[0].level, LogLevel::Error);
    assert_eq!(step.logs[0].message, "d: permission denied");
    assert!(matches!(step.request, Request::Inspect(ref p) if p == "e"));
}

#[test]
fn start_does_nothing_while_an_answer_is_awaited() {
    let mut walk = Traversal::new(plain(true), rules(&[]), false, vec!["a".to_string()]);
    let step = walk.start();
    assert!(matches!(step.request, Request::Inspect(ref p) if p == "a"));
    assert!(!walk.is_idle());
    let step = walk.start();
    assert!(matches!(step.request, Request::Inspect(ref p) if p == "a"));
    assert!(step.logs.is_empty());
    assert!(matches!(walk.request(), Request::Inspect(ref p) if p == "a"));
}

#[test]
fn pattern_without_wildcard_is_an_entry_as_it_stands() {
    let d = sample_disk();
    let (found, warnings) = expand(&d, &rules(&[]), &["ghost", "./a.txt", "src"]);
    assert_eq!(found, vec!["ghost", "./a.txt", "src"]);
    assert!(warnings.is_empty());
    let (found, _) = expand(&d, &rules(&["a.txt"]), &["ghost", "./a.txt"]);
    assert_eq!(found, vec!["ghost"]);
}

#[test]
fn wildcard_pattern_yields_the_matches_on_disk_in_listing_order() {
    let d = sample_disk();
    let (found, _) = expand(&d, &rules(&[]), &["*.txt"]);
    assert_eq!(found, vec!["a.txt", "secret.txt"]);
    let (found, _) = expand(&d, &rules(&[]), &["src/*.rs"]);
    assert_eq!(found, vec!["src/lib.rs", "src/main.rs"]);
    let (found, _) = expand(&d, &rules(&[]), &["./src/*.rs", "*.bin"]);
    assert_eq!(found, vec!["src/lib.rs", "src/main.rs", "b.bin"]);
    let (found, _) = expand(&d, &rules(&[]), &["*/*.rs"]);
    assert_eq!(found, vec!["src/lib.rs", "src/main.rs"]);
    let (found, _) = expand(&d, &rules(&[]), &["*.xyz"]);
    assert!(found.is_empty());
    let (found, _) = expand(&d, &rules(&[]), &["s*"]);
    assert_eq!(found, vec!["secret.txt", "src"]);
}

#[test]
fn recursive_wildcard_reaches_every_depth() {
    let d = sample_disk();
    let (found, _) = expand(&d, &rules(&[]), &["**/*.rs"]);
    assert_eq!(found, vec!["src/lib.rs", "src/main.rs", "src/gen/x.rs"]);
    let (found, _) = expand(&d, &rules(&[]), &["docs/**"]);
    assert_eq!(found, vec!["docs/guide.md", "docs/img", "docs/img/logo.txt"]);
}

#[test]
fn expansion_leaves_out_what_is_excluded() {
    let d = sample_disk();
    let (found, _) = expand(&d, &rules(&["src/gen"]), &["**/*.rs"]);
    assert_eq!(found, vec!["src/lib.rs", "src/main.rs"]);
    let (found, _) = expand(&d, &rules(&["secret.*"]), &["*.txt", "secret.txt"]);
    assert_eq!(found, vec!["a.txt"]);
}

#[test]
fn expansion_lists_no_deeper_than_the_pattern_reaches() {
    let d = sample_disk();
    let owned = vec!["*/*.md".to_string()];
    let matcher = rules(&[]);
    let mut expansion = Expansion::new(&owned).unwrap();
    let mut listed = Vec::new();
    let mut request = expansion.start(&matcher);
    while let Some(dir) = request {
        listed.push(dir.clone());
        let key = if dir == "." { ".".to_string() } else { dir.trim_end_matches('/').to_string() };
        let names = match d.nodes.get(&key) {
            Some(Node::Dir(names)) => names.clone(),
            _ => Vec::new(),
        };
        let children: Vec<Child> = names
            .iter()
            .map(|n| Child {
                name: n.to_string(),
                is_dir: matches!(d.nodes.get(&join(&key, n)), Some(Node::Dir(_))),
            })
            .collect();
        request = expansion.supply(&matcher, &children);
    }
    assert_eq!(listed, vec![".", "docs/", "src/"]);
    assert_eq!(expansion.found(), &vec!["docs/guide.md".to_string()]);
}

#[test]
fn directory_that_cannot_be_listed_is_passed_over_with_a_warning() {
    let d = disk(vec![(".", Node::Dir(vec!["a.txt"])), ("a.txt", Node::File(vec![]))]);
    let (found, warnings) = expand(&d, &rules(&[]), &["gone/*.txt", "*.txt"]);
    assert_eq!(found, vec!["a.txt"]);
    assert_eq!(warnings, vec!["[warning] gone/: cannot list"]);
}

#[test]
fn malformed_input_pattern_is_refused() {
    let owned = vec!["ok".to_string(), "src/[".to_string()];
    let err = Expansion::new(&owned).unwrap_err();
    assert_eq!(err.index, 1);
    assert_eq!(err.pattern, "src/[");
    assert_eq!(err.error, filecat::glob::PatternError::UnclosedClass(4));
}
