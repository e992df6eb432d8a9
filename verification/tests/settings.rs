use gisaid_dupes::dupes::run::{is_standard_output, Args};
use gisaid_dupes::utils::verbosity::{FilterLevel, Verbosity};

fn args(output_csv: Option<&str>, jobs: usize) -> Args {
    Args {
        input_ndjson: None,
        output_csv: output_csv.map(|path| path.to_string()),
        jobs,
        verbosity: Verbosity { verbose: 0, quiet: 0 },
    }
}

#[test]
fn output_goes_to_the_path_given_or_to_standard_output() {
    assert_eq!(args(None, 4).output_path(), "-");
    assert_eq!(args(Some("out.tsv.gz"), 4).output_path(), "out.tsv.gz");
    assert_eq!(args(Some(""), 4).output_path(), "");
}

#[test]
fn there_is_one_worker_at_least() {
    assert_eq!(args(None, 0).workers(), 1);
    assert_eq!(args(None, 1).workers(), 1);
    assert_eq!(args(None, 16).workers(), 16);
    assert_eq!(args(None, usize::MAX).workers(), usize::MAX);
}

#[test]
fn filter_level_starts_at_warnings() {
    let level = |verbose, quiet| Verbosity { verbose, quiet }.get_filter_level();
    assert_eq!(level(0, 0), FilterLevel::Warn);
    assert_eq!(level(1, 0), FilterLevel::Info);
    assert_eq!(level(2, 0), FilterLevel::Debug);
    assert_eq!(level(3, 0), FilterLevel::Trace);
    assert_eq!(level(255, 0), FilterLevel::Trace);
    assert_eq!(level(0, 1), FilterLevel::Error);
    assert_eq!(level(0, 2), FilterLevel::Off);
    assert_eq!(level(0, 255), FilterLevel::Off);
    assert_eq!(level(3, 3), FilterLevel::Warn);
    assert_eq!(level(255, 255), FilterLevel::Warn);
}

#[test]
fn a_lone_dash_stands_for_standard_output() {
    assert!(is_standard_output("-"));
    assert!(!is_standard_output(""));
    assert!(!is_standard_output("--"));
    assert!(!is_standard_output("./-"));
    assert!(!is_standard_output("out.tsv"));
}
