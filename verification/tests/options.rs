use filesplit::cli::{Cli, FileFormat};
use filesplit::config::Config;
use filesplit::error::FileSplitError;
use filesplit::splitter::{resolve_mode, SplitMode};

fn cli(size: Option<&str>, rows: Option<u64>) -> Cli {
    Cli {
        file: "in.csv".to_string(),
        size: size.map(|s| s.to_string()),
        rows,
        format: FileFormat::Auto,
        delimiter: ',',
        preserve_header: true,
        output: None,
        prefix: None,
        suffix: None,
        digits: 4,
        report: None,
        quiet: false,
        verbose: false,
    }
}

#[test]
fn validate_wants_a_mode_then_a_file() {
    assert!(matches!(cli(None, None).validate(true), Err(FileSplitError::MissingMode)));
    match cli(None, Some(5)).validate(false) {
        Err(FileSplitError::FileNotFound(p)) => assert_eq!(p, "in.csv"),
        other => panic!("expected FileNotFound, got {:?}", other),
    }
    assert!(cli(Some("1KB"), None).validate(true).is_ok());
    assert!(cli(None, Some(5)).validate(true).is_ok());
}

#[test]
fn validate_refuses_both_modes() {
    assert!(matches!(cli(Some("1KB"), Some(5)).validate(true), Err(FileSplitError::MissingMode)));
    assert!(matches!(cli(Some("1KB"), Some(5)).validate(false), Err(FileSplitError::MissingMode)));
}

#[test]
fn mode_prefers_size_then_rows() {
    assert_eq!(resolve_mode(&cli(Some("5KB"), Some(3))).unwrap().unwrap(), SplitMode::BySize(5120));
    assert_eq!(resolve_mode(&cli(None, Some(3))).unwrap().unwrap(), SplitMode::ByRows(3));
    assert!(matches!(resolve_mode(&cli(None, None)), Some(Err(FileSplitError::MissingMode))));
    assert!(matches!(resolve_mode(&cli(Some("x"), None)), Some(Err(FileSplitError::InvalidSize(_)))));
    assert!(resolve_mode(&cli(Some("5\u{a0}KB"), None)).is_none());
}

#[test]
fn default_config_sets_nothing() {
    let c = Config::default();
    assert!(c.preserve_header.is_none() && c.output_dir.is_none());
    assert!(c.prefix.is_none() && c.dry_run.is_none());
}
