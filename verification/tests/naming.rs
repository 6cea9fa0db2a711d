use filesplit::cli::{Cli, FileFormat};
use filesplit::splitter::{
    choose_output_dir, choose_prefix, choose_suffix, chunk_file_name, chunk_path, format_for_extension, format_name,
    resolve_format, resolve_output_dir, resolve_prefix, resolve_suffix,
};

fn cli_for(file: &str, format: FileFormat) -> Cli {
    Cli {
        file: file.to_string(),
        size: None,
        rows: Some(10),
        format,
        delimiter: ',',
        preserve_header: true,
        output: None,
        prefix: None,
        suffix: None,
        digits: 4,
        report: None,
        quiet: true,
        verbose: false,
    }
}

#[test]
fn chunk_names_are_zero_padded() {
    assert_eq!(chunk_file_name("data", false, ".csv", 1, 4), "data_part_0001.csv");
    assert_eq!(chunk_file_name("sales_chunk", true, ".csv", 2, 5), "sales_chunk_00002.csv");
    assert_eq!(chunk_file_name("x", false, ".log", 123456, 4), "x_part_123456.log");
    assert_eq!(chunk_file_name("x", false, "", 7, 0), "x_part_7");
}

#[test]
fn auto_format_follows_the_extension() {
    assert_eq!(resolve_format(&cli_for("/tmp/a.tsv", FileFormat::Auto)), FileFormat::Tsv);
    assert_eq!(resolve_format(&cli_for("server.LOG", FileFormat::Auto)), FileFormat::Text);
    assert_eq!(resolve_format(&cli_for("events.jsonl", FileFormat::Auto)), FileFormat::Text);
    assert_eq!(resolve_format(&cli_for("data.csv", FileFormat::Auto)), FileFormat::Csv);
    assert_eq!(resolve_format(&cli_for("noext", FileFormat::Auto)), FileFormat::Csv);
    assert_eq!(resolve_format(&cli_for("a.tsv", FileFormat::Text)), FileFormat::Text);
}

#[test]
fn extension_table() {
    assert_eq!(format_for_extension("tsv"), FileFormat::Tsv);
    assert_eq!(format_for_extension("ndjson"), FileFormat::Text);
    assert_eq!(format_for_extension("TSV"), FileFormat::Csv);
    assert_eq!(format_for_extension(""), FileFormat::Csv);
}

#[test]
fn format_names() {
    assert_eq!(format_name(&FileFormat::Csv), "CSV");
    assert_eq!(format_name(&FileFormat::Auto), "CSV");
    assert_eq!(format_name(&FileFormat::Tsv), "TSV");
    assert_eq!(format_name(&FileFormat::Text), "Text");
}

#[test]
fn prefix_defaults_to_the_stem() {
    assert_eq!(resolve_prefix(&cli_for("/data/large.csv", FileFormat::Auto)), "large");
    let mut cli = cli_for("/data/large.csv", FileFormat::Auto);
    cli.prefix = Some("sales_chunk".to_string());
    assert_eq!(resolve_prefix(&cli), "sales_chunk");
    assert_eq!(choose_prefix(&None, None), "output");
    assert_eq!(choose_prefix(&None, Some("s".to_string())), "s");
}

#[test]
fn suffix_defaults_to_the_extension_then_the_format() {
    assert_eq!(resolve_suffix(&cli_for("server.log", FileFormat::Text), &FileFormat::Text), ".log");
    assert_eq!(resolve_suffix(&cli_for("server", FileFormat::Text), &FileFormat::Text), ".txt");
    assert_eq!(resolve_suffix(&cli_for("server", FileFormat::Tsv), &FileFormat::Tsv), ".tsv");
    assert_eq!(resolve_suffix(&cli_for("server", FileFormat::Csv), &FileFormat::Csv), ".csv");
    let mut cli = cli_for("server.log", FileFormat::Text);
    cli.suffix = Some(".out".to_string());
    assert_eq!(resolve_suffix(&cli, &FileFormat::Text), ".out");
    assert_eq!(choose_suffix(&None, Some("dat".to_string()), &FileFormat::Csv), ".dat");
}

#[test]
fn every_part_gets_its_own_name() {
    let mut names: Vec<String> = (1..=1500).map(|p| chunk_file_name("d", false, ".csv", p, 2)).collect();
    names.sort();
    names.dedup();
    assert_eq!(names.len(), 1500);
}

#[test]
fn output_dir_defaults_to_the_input_directory() {
    assert_eq!(resolve_output_dir(&cli_for("events.csv", FileFormat::Auto)), ".");
    assert_eq!(resolve_output_dir(&cli_for("data/x.csv", FileFormat::Auto)), "data");
    let mut c = cli_for("data/x.csv", FileFormat::Auto);
    c.output = Some("out".to_string());
    assert_eq!(resolve_output_dir(&c), "out");
    assert_eq!(choose_output_dir(&None, Some(String::new())), ".");
    assert_eq!(choose_output_dir(&None, None), ".");
    assert_eq!(choose_output_dir(&None, Some("a/b".to_string())), "a/b");
    assert_eq!(choose_output_dir(&Some("o".to_string()), Some("a".to_string())), "o");
}

#[test]
fn output_dir_is_the_parent_of_any_plain_path() {
    assert_eq!(resolve_output_dir(&cli_for("/data/in.csv", FileFormat::Auto)), "/data");
    assert_eq!(resolve_output_dir(&cli_for("a/b/x.csv", FileFormat::Auto)), "a/b");
    assert_eq!(resolve_output_dir(&cli_for("/x.csv", FileFormat::Auto)), "/");
    assert_eq!(resolve_output_dir(&cli_for("./x.csv", FileFormat::Auto)), ".");
}

#[test]
fn a_path_without_a_file_name_gets_the_defaults() {
    assert_eq!(resolve_prefix(&cli_for("..", FileFormat::Auto)), "output");
    assert_eq!(resolve_prefix(&cli_for("a/..", FileFormat::Auto)), "output");
    assert_eq!(resolve_suffix(&cli_for("..", FileFormat::Auto), &FileFormat::Text), ".txt");
    assert_eq!(resolve_format(&cli_for("..", FileFormat::Auto)), FileFormat::Csv);
    let mut c = cli_for("..", FileFormat::Auto);
    c.prefix = Some("p".to_string());
    c.suffix = Some(".s".to_string());
    assert_eq!(resolve_prefix(&c), "p");
    assert_eq!(resolve_suffix(&c, &FileFormat::Csv), ".s");
}

#[test]
fn chunk_paths_leave_off_a_defaulted_dot() {
    assert_eq!(chunk_path(false, ".", "events_part_0001.csv"), "events_part_0001.csv");
    assert_eq!(chunk_path(true, ".", "a.csv"), "./a.csv");
    assert_eq!(chunk_path(false, "data", "a.csv"), "data/a.csv");
    assert_eq!(chunk_path(true, "/data/chunks/", "a.csv"), "/data/chunks/a.csv");
    assert_eq!(chunk_path(true, "", "a.csv"), "a.csv");
}
