use filecat::glob::PatternError;
use filecat::log::LogLevel;
use filecat::exclude::ExclusionMatcher;
use filecat::expand::Expansion;
use filecat::run::{
    check_header, check_output, describe_fault, entries_of, no_match, prepare, Fatal, OutputProbe,
};

fn strings(items: &[&str]) -> Vec<String> {
    items.iter().map(|s| s.to_string()).collect()
}

#[test]
fn existing_output_file_stops_the_run() {
    let probe = Some(OutputProbe { exists: true, is_dir: false });
    let prepared = prepare("==> {file}", &strings(&["a.txt"]), &strings(&[]), probe);
    let fatal = prepared.plan.unwrap_err();
    assert!(matches!(fatal, Fatal::OutputExists));
    assert_eq!(fatal.message(), "Output file already exists");
    assert_eq!(fatal.log_line().level, LogLevel::Error);
    assert!(prepared.warning.is_none());
}

#[test]
fn output_directory_stops_the_run() {
    let probe = Some(OutputProbe { exists: true, is_dir: true });
    let prepared = prepare("no placeholder", &strings(&[]), &strings(&["["]), probe);
    let fatal = prepared.plan.unwrap_err();
    assert!(matches!(fatal, Fatal::OutputIsDirectory));
    assert_eq!(fatal.message(), "Output path is a directory");
    assert!(prepared.warning.is_none());
    assert!(matches!(check_output(probe), Err(Fatal::OutputIsDirectory)));
}

#[test]
fn free_output_path_or_none_lets_the_run_start() {
    assert!(check_output(None).is_ok());
    assert!(check_output(Some(OutputProbe { exists: false, is_dir: false })).is_ok());
    let prepared = prepare("==> {file}", &strings(&["a.txt"]), &strings(&["*.log"]), None);
    let plan = prepared.plan.unwrap();
    assert!(prepared.warning.is_none());
    assert_eq!(plan.matcher.len(), 1);
    assert!(!plan.expansion.is_done());
}

#[test]
fn no_paths_stops_the_run_after_the_header_warning() {
    let prepared = prepare("plain", &strings(&[]), &strings(&[]), None);
    let fatal = prepared.plan.unwrap_err();
    assert!(matches!(fatal, Fatal::NoPaths));
    assert_eq!(fatal.message(), "No files or directories provided");
    let warning = prepared.warning.unwrap();
    assert_eq!(warning.level, LogLevel::Warning);
    assert_eq!(warning.message, "Header does not contain the placeholder {file}");
}

#[test]
fn header_without_placeholder_earns_a_warning_and_the_run_goes_on() {
    let prepared = prepare("plain", &strings(&["a.txt"]), &strings(&[]), None);
    assert!(prepared.plan.is_ok());
    assert_eq!(
        prepared.warning.unwrap().message,
        "Header does not contain the placeholder {file}"
    );
    assert!(check_header("==> {file}").is_none());
    assert!(check_header("").is_some());
}

#[test]
fn malformed_exclusion_pattern_stops_the_run() {
    let prepared = prepare("{file}", &strings(&["a", "b["]), &strings(&["ok", "x[z-a]"]), None);
    let fatal = prepared.plan.unwrap_err();
    match &fatal {
        Fatal::InvalidPattern(e) => {
            assert_eq!(e.index, 1);
            assert_eq!(e.pattern, "x[z-a]");
            assert_eq!(e.error, PatternError::ReversedRange(1));
        }
        other => panic!("unexpected {:?}", other),
    }
    assert_eq!(
        fatal.message(),
        "Invalid exclusion pattern 'x[z-a]': a range runs downwards in the set at index 1"
    );
}

#[test]
fn malformed_input_pattern_stops_the_run() {
    let prepared = prepare("{file}", &strings(&["a", "b["]), &strings(&["ok"]), None);
    let fatal = prepared.plan.unwrap_err();
    match &fatal {
        Fatal::InvalidInput(e) => {
            assert_eq!(e.index, 1);
            assert_eq!(e.pattern, "b[");
            assert_eq!(e.error, PatternError::UnclosedClass(1));
        }
        other => panic!("unexpected {:?}", other),
    }
    assert_eq!(
        fatal.message(),
        "Invalid input pattern 'b[': no ']' closes the '[' at index 1"
    );
}

#[test]
fn faults_are_described() {
    assert_eq!(
        describe_fault(PatternError::UnclosedClass(12)),
        "no ']' closes the '[' at index 12"
    );
    assert_eq!(
        describe_fault(PatternError::ReversedRange(0)),
        "a range runs downwards in the set at index 0"
    );
    assert_eq!(no_match().message, "No matching files");
    assert_eq!(no_match().level, LogLevel::Info);
}

#[test]
fn run_without_entries_ends_with_a_note() {
    let matcher = ExclusionMatcher::new(&strings(&["a.txt"])).unwrap();
    let mut expansion = Expansion::new(&strings(&["a.txt"])).unwrap();
    assert!(expansion.start(&matcher).is_none());
    let note = entries_of(expansion).unwrap_err();
    assert_eq!(note.level, LogLevel::Info);
    assert_eq!(note.message, "No matching files");
    let mut expansion = Expansion::new(&strings(&["b.txt", "c.txt"])).unwrap();
    assert!(expansion.start(&matcher).is_none());
    assert_eq!(entries_of(expansion).unwrap(), strings(&["b.txt", "c.txt"]));
}
