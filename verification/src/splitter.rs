//! The decisions of a split: its mode, format, file names and row encodings.

use vstd::prelude::*;
use vstd::string::*;
use crate::cli::{Cli, FileFormat};
use crate::error::FileSplitError;
use crate::planner;
use crate::strings;

verus! {

/// The limit of a chunk.
#[derive(Debug, Clone, Copy, PartialEq, Eq, Structural)]
pub enum SplitMode {
    /// At most this many bytes of rows per chunk (a single larger row still
    /// gets a chunk of its own).
    BySize(u64),
    /// At most this many rows per chunk.
    ByRows(u64),
}

/// How a split mode is described to people.
pub open spec fn mode_description(mode: SplitMode) -> Seq<char> {
    match mode {
        SplitMode::BySize(b) => "size \u{2264} "@ + crate::format::humansize_binary(b),
        SplitMode::ByRows(r) => strings::decimal_digits(r as nat) + " rows/chunk"@,
    }
}

impl SplitMode {
    /// Describes the mode: `size ≤ 100 MiB` or `500 rows/chunk`.
    pub fn describe(&self) -> (r: String)
        ensures
            r@ == mode_description(*self),
    {
        match self {
            SplitMode::BySize(b) => {
                let mut r = String::from_str("size \u{2264} ");
                let human = crate::format::format_bytes(*b);
                r.append(human.as_str());
                r
            },
            SplitMode::ByRows(n) => {
                let mut r = strings::string_from_chars(&strings::decimal_chars(*n));
                r.append(" rows/chunk");
                r
            },
        }
    }
}

/// Picks the split mode: by size when a size is given, else by rows when a
/// row count is given, else none. `None` where the size string cannot be
/// split between number and suffix (see [`crate::format::parse_size_checked`]).
pub fn resolve_mode(cli: &Cli) -> (r: Option<Result<SplitMode, FileSplitError>>)
    ensures
        match cli.size {
            Some(text) => {
                &&& r is None <==> !crate::format::splits_cleanly(text@)
                &&& r matches Some(Ok(m)) ==> (m matches SplitMode::BySize(b)
                    && crate::format::size_reading(text@) == Ok::<u64, Seq<char>>(b))
                &&& r matches Some(Err(e)) ==> (e matches FileSplitError::InvalidSize(reason)
                    && crate::format::size_reading(text@) == Err::<u64, Seq<char>>(reason@))
            },
            None => match cli.rows {
                Some(n) => r == Some(Ok::<SplitMode, FileSplitError>(SplitMode::ByRows(n))),
                None => r matches Some(Err(FileSplitError::MissingMode)),
            },
        },
{
    if let Some(text) = &cli.size {
        match crate::format::parse_size_checked(text.as_str()) {
            None => None,
            Some(Ok(bytes)) => Some(Ok(SplitMode::BySize(bytes))),
            Some(Err(e)) => Some(Err(e)),
        }
    } else if let Some(n) = cli.rows {
        Some(Ok(SplitMode::ByRows(n)))
    } else {
        Some(Err(FileSplitError::MissingMode))
    }
}

// ─── Formats ──────────────────────────────────────────────────────────────────

/// The name of a format in reports.
pub open spec fn format_title(format: FileFormat) -> Seq<char> {
    match format {
        FileFormat::Csv | FileFormat::Auto => "CSV"@,
        FileFormat::Tsv => "TSV"@,
        FileFormat::Text => "Text"@,
    }
}

/// The name of a format in reports: `CSV`, `TSV` or `Text`.
pub fn format_name(format: &FileFormat) -> (r: &'static str)
    ensures
        r@ == format_title(*format),
{
    match format {
        FileFormat::Csv | FileFormat::Auto => "CSV",
        FileFormat::Tsv => "TSV",
        FileFormat::Text => "Text",
    }
}

/// The format that a lower-case file extension stands for: `tsv` is TSV;
/// `txt`, `log`, `ndjson` and `jsonl` are text; anything else is CSV.
pub open spec fn extension_format(ext: Seq<char>) -> FileFormat {
    if ext == "tsv"@ {
        FileFormat::Tsv
    } else if ext == "txt"@ || ext == "log"@ || ext == "ndjson"@ || ext == "jsonl"@ {
        FileFormat::Text
    } else {
        FileFormat::Csv
    }
}

/// The format that a lower-case file extension stands for.
pub fn format_for_extension(ext: &str) -> (r: FileFormat)
    ensures
        r == extension_format(ext@),
{
    let e = strings::chars_of(ext);
    if strings::chars_equal(&e, "tsv") {
        FileFormat::Tsv
    } else if strings::chars_equal(&e, "txt") || strings::chars_equal(&e, "log")
        || strings::chars_equal(&e, "ndjson") || strings::chars_equal(&e, "jsonl") {
        FileFormat::Text
    } else {
        FileFormat::Csv
    }
}

/// The lower-case mapping of `s`, as `str::to_lowercase` gives it.
pub uninterp spec fn unicode_lowercase(s: Seq<char>) -> Seq<char>;

/// The Unicode lower-case mapping of `s`: for ASCII text, its letters made
/// lower-case; beyond ASCII as the Unicode tables say.
pub open spec fn lowercase_of(s: Seq<char>) -> Seq<char> {
    if strings::all_ascii(s) {
        strings::ascii_lower(s)
    } else {
        unicode_lowercase(s)
    }
}

/// `str::to_lowercase`: the Unicode lower-case mapping of `s`, which for ASCII
/// text maps `A`..`Z` to `a`..`z` and keeps every other character. Beyond
/// ASCII its tables are long, so its result is only named there.
#[verifier::external_body]
fn to_lowercase(s: &str) -> (r: String)
    ensures
        strings::all_ascii(s@) ==> r@ == strings::ascii_lower(s@),
        !strings::all_ascii(s@) ==> r@ == unicode_lowercase(s@),
{
    s.to_lowercase()
}

// ─── Paths ────────────────────────────────────────────────────────────────────

/// The index of the last `c` in `p`, if any.
pub open spec fn last_index_of(p: Seq<char>, c: char) -> Option<int>
    decreases p.len(),
{
    if p.len() == 0 {
        None
    } else if p.last() == c {
        Some(p.len() - 1)
    } else {
        last_index_of(p.drop_last(), c)
    }
}

/// The text of `p` after its last `/` (all of `p` when it has none).
pub open spec fn file_name_of(p: Seq<char>) -> Seq<char> {
    match last_index_of(p, '/') {
        Some(i) => p.skip(i + 1),
        None => p,
    }
}

/// The text of `p` before its last `/` (empty when it has none).
pub open spec fn directory_of(p: Seq<char>) -> Seq<char> {
    match last_index_of(p, '/') {
        Some(i) => p.take(i),
        None => Seq::empty(),
    }
}

/// A name that is a path component on every platform: not empty, not `.` or
/// `..`, and without `/`, `\` or `:`.
pub open spec fn is_plain_name(n: Seq<char>) -> bool {
    &&& n.len() > 0
    &&& n != "."@
    &&& n != ".."@
    &&& !n.contains('/')
    &&& !n.contains('\\')
    &&& !n.contains(':')
}

/// A path that every platform splits at its `/` alone: it holds no `\` or
/// `:`, and does not start with two `/` (which some platforms read as the
/// start of a network or device name).
pub open spec fn plain_separators(p: Seq<char>) -> bool {
    &&& !p.contains('\\')
    &&& !p.contains(':')
    &&& !(p.len() >= 2 && p[0] == '/' && p[1] == '/')
}

/// A path whose file name is read the same way on every platform: it splits
/// at its `/` alone, and the text after its last `/` is a plain name.
pub open spec fn has_plain_file_name(p: Seq<char>) -> bool {
    &&& plain_separators(p)
    &&& is_plain_name(file_name_of(p))
}

/// A path with no file name on every platform: the empty path, or one whose
/// last component is `..`.
pub open spec fn has_no_file_name(p: Seq<char>) -> bool {
    &&& plain_separators(p)
    &&& (p.len() == 0 || file_name_of(p) == ".."@)
}

/// A directory part that a path keeps as it is written: not empty, not ending
/// in `/`, without two `/` in a row, and without a `.` component after its
/// first (such separators and components are dropped when a path is read).
pub open spec fn clean_directory(d: Seq<char>) -> bool {
    &&& d.len() > 0
    &&& d.last() != '/'
    &&& forall|i: int| 0 <= i < d.len() - 1 && #[trigger] d[i] == '/' ==> d[i + 1] != '/'
    &&& forall|i: int|
        0 <= i < d.len() - 1 && #[trigger] d[i] == '/' && d[i + 1] == '.' ==> i + 2 < d.len()
            && d[i + 2] != '/'
}

/// The extension of a file name: the text after its last `.`, unless it has
/// no `.` or its only `.` is its first character.
pub open spec fn name_extension(n: Seq<char>) -> Option<Seq<char>> {
    match last_index_of(n, '.') {
        Some(i) => if i > 0 {
            Some(n.skip(i + 1))
        } else {
            None
        },
        None => None,
    }
}

/// The stem of a file name: the text before its last `.`, or the whole name
/// when it has no extension.
pub open spec fn name_stem(n: Seq<char>) -> Seq<char> {
    match last_index_of(n, '.') {
        Some(i) => if i > 0 {
            n.take(i)
        } else {
            n
        },
        None => n,
    }
}

/// `Path::extension` of `path`, as text: the part of the file name after its
/// last `.`, when the name does not start with its only `.`. An extension
/// holds no `.`. Which part of a path is the file name depends on the
/// platform's separators; for a path with a plain file name (see
/// [`has_plain_file_name`]) it is the text after the last `/` on every platform.
#[verifier::external_body]
fn path_extension(path: &str) -> (r: Option<String>)
    ensures
        r matches Some(e) ==> !e@.contains('.'),
        has_plain_file_name(path@) ==> r.deep_view() == name_extension(file_name_of(path@)),
        has_no_file_name(path@) ==> r is None,
{
    match std::path::Path::new(path).extension() {
        Some(e) => match e.to_str() {
            Some(t) => Some(t.to_string()),
            None => None,
        },
        None => None,
    }
}

/// `Path::file_stem` of `path`, as text: the file name without its
/// extension. For a path with a plain file name it is the stem of the text
/// after the last `/`; otherwise it depends on the platform's separators.
#[verifier::external_body]
fn path_file_stem(path: &str) -> (r: Option<String>)
    ensures
        has_plain_file_name(path@) ==> r.deep_view() == Some(name_stem(file_name_of(path@))),
        has_no_file_name(path@) ==> r is None,
{
    match std::path::Path::new(path).file_stem() {
        Some(s) => match s.to_str() {
            Some(t) => Some(t.to_string()),
            None => None,
        },
        None => None,
    }
}

/// `Path::parent` of `path`, as text: the path without its final component,
/// `Some("")` for a single relative component. Stated where every platform
/// reads the path alike (see [`has_plain_file_name`]): a plain file name alone
/// gives `""`, one directly under the root gives `/`, and one under a directory
/// part that is kept as written (see [`clean_directory`]) gives that part.
#[verifier::external_body]
fn path_parent(path: &str) -> (r: Option<String>)
    ensures
        has_plain_file_name(path@) && last_index_of(path@, '/') is None ==> r.deep_view() == Some(
            Seq::<char>::empty(),
        ),
        has_plain_file_name(path@) && last_index_of(path@, '/') == Some(0int) ==> r.deep_view()
            == Some("/"@),
        has_plain_file_name(path@) && clean_directory(directory_of(path@)) ==> r.deep_view()
            == Some(directory_of(path@)),
{
    match std::path::Path::new(path).parent() {
        Some(p) => match p.to_str() {
            Some(t) => Some(t.to_string()),
            None => None,
        },
        None => None,
    }
}

/// The directory of the chunks: the one given, else the input's directory,
/// else (for an input in the current directory) `.`.
pub open spec fn output_choice(output: Option<Seq<char>>, parent: Option<Seq<char>>) -> Seq<char> {
    match output {
        Some(o) => o,
        None => match parent {
            Some(p) => if p.len() > 0 {
                p
            } else {
                "."@
            },
            None => "."@,
        },
    }
}

/// The directory of the chunks from the one given and the input's parent.
pub fn choose_output_dir(output: &Option<String>, parent: Option<String>) -> (r: String)
    ensures
        r@ == output_choice(output.deep_view(), parent.deep_view()),
{
    match output {
        Some(o) => o.clone(),
        None => match parent {
            Some(p) => if p.as_str().unicode_len() > 0 {
                p
            } else {
                String::from_str(".")
            },
            None => String::from_str("."),
        },
    }
}

/// The directory of the chunks: the one given, else the directory of the
/// input, else `.`.
pub fn resolve_output_dir(cli: &Cli) -> (r: String)
    ensures
        exists|parent: Option<Seq<char>>|
            r@ == #[trigger] output_choice(cli.output.deep_view(), parent),
        cli.output matches Some(o) ==> r@ == o@,
        cli.output is None && has_plain_file_name(cli.file@) && last_index_of(cli.file@, '/') is None
            ==> r@ == "."@,
        cli.output is None && has_plain_file_name(cli.file@) && last_index_of(cli.file@, '/')
            == Some(0int) ==> r@ == "/"@,
        cli.output is None && has_plain_file_name(cli.file@) && clean_directory(
            directory_of(cli.file@),
        ) ==> r@ == directory_of(cli.file@),
{
    proof {
        reveal_strlit("/");
    }
    let parent = if cli.output.is_none() {
        path_parent(cli.file.as_str())
    } else {
        None
    };
    choose_output_dir(&cli.output, parent)
}

/// The format to read the input in: the one given, or for `Auto` the one
/// that the input's lower-cased extension stands for (none counts as empty).
pub fn resolve_format(cli: &Cli) -> (r: FileFormat)
    ensures
        cli.format != FileFormat::Auto ==> r == cli.format,
        cli.format == FileFormat::Auto ==> exists|ext: Seq<char>|
            #![trigger lowercase_of(ext)]
            !ext.contains('.') && r == extension_format(lowercase_of(ext)),
        cli.format == FileFormat::Auto && has_plain_file_name(cli.file@) ==> r == extension_format(
            lowercase_of(
                match name_extension(file_name_of(cli.file@)) {
                    Some(e) => e,
                    None => Seq::empty(),
                },
            ),
        ),
        cli.format == FileFormat::Auto && has_no_file_name(cli.file@) ==> r == extension_format(
            lowercase_of(Seq::empty()),
        ),
{
    match cli.format {
        FileFormat::Auto => {
            let ext = match path_extension(cli.file.as_str()) {
                Some(e) => e,
                None => String::new(),
            };
            let lower = to_lowercase(ext.as_str());
            let r = format_for_extension(lower.as_str());
            assert(!ext@.contains('.') && r == extension_format(lowercase_of(ext@)));
            r
        },
        f => f,
    }
}

/// The path of a chunk file named `name` in the directory `dir`: the name
/// alone when the directory is empty, or is the `.` that stands for the input's
/// own directory when none was given; else the directory, a `/` unless it
/// ends in one, and the name.
pub open spec fn joined_path(dir_given: bool, dir: Seq<char>, name: Seq<char>) -> Seq<char> {
    if dir.len() == 0 || (!dir_given && dir == "."@) {
        name
    } else if dir.last() == '/' {
        dir + name
    } else {
        dir + seq!['/'] + name
    }
}

/// The path of the chunk file `name` in the output directory `dir`;
/// `dir_given` says whether the directory was given rather than defaulted.
pub fn chunk_path(dir_given: bool, dir: &str, name: &str) -> (r: String)
    ensures
        r@ == joined_path(dir_given, dir@, name@),
{
    let d = strings::chars_of(dir);
    if d.len() == 0 || (!dir_given && strings::chars_equal(&d, ".")) {
        return name.to_string();
    }
    let mut r = dir.to_string();
    if d[d.len() - 1] != '/' {
        strings::push_char(&mut r, '/');
    }
    r.append(name);
    r
}

// ─── Chunk file names ─────────────────────────────────────────────────────────

/// The prefix of chunk file names: the one given, else the input's stem, else
/// `output`.
pub open spec fn prefix_choice(given: Option<Seq<char>>, stem: Option<Seq<char>>) -> Seq<char> {
    match given {
        Some(p) => p,
        None => match stem {
            Some(s) => s,
            None => "output"@,
        },
    }
}

/// The prefix of chunk file names from the one given and the input's stem.
pub fn choose_prefix(given: &Option<String>, stem: Option<String>) -> (r: String)
    ensures
        r@ == prefix_choice(given.deep_view(), stem.deep_view()),
{
    match given {
        Some(p) => p.clone(),
        None => match stem {
            Some(s) => s,
            None => String::from_str("output"),
        },
    }
}

/// The prefix of chunk file names: the one given, else the input's file stem,
/// else `output`.
pub fn resolve_prefix(cli: &Cli) -> (r: String)
    ensures
        exists|stem: Option<Seq<char>>| r@ == #[trigger] prefix_choice(cli.prefix.deep_view(), stem),
        cli.prefix matches Some(p) ==> r@ == p@,
        cli.prefix is None && has_plain_file_name(cli.file@) ==> r@ == name_stem(
            file_name_of(cli.file@),
        ),
        cli.prefix is None && has_no_file_name(cli.file@) ==> r@ == "output"@,
{
    let stem = if cli.prefix.is_none() {
        path_file_stem(cli.file.as_str())
    } else {
        None
    };
    choose_prefix(&cli.prefix, stem)
}

/// The extension assumed for an input without one.
pub open spec fn default_extension(format: FileFormat) -> Seq<char> {
    match format {
        FileFormat::Tsv => "tsv"@,
        FileFormat::Text => "txt"@,
        _ => "csv"@,
    }
}

/// The suffix of chunk file names: the one given, else `.` and the input's
/// extension, else `.` and the format's usual extension.
pub open spec fn suffix_choice(given: Option<Seq<char>>, ext: Option<Seq<char>>, format: FileFormat) -> Seq<char> {
    match given {
        Some(s) => s,
        None => seq!['.'] + match ext {
            Some(e) => e,
            None => default_extension(format),
        },
    }
}

/// The suffix of chunk file names from the one given and the input's extension.
pub fn choose_suffix(given: &Option<String>, ext: Option<String>, format: &FileFormat) -> (r: String)
    ensures
        r@ == suffix_choice(given.deep_view(), ext.deep_view(), *format),
{
    match given {
        Some(s) => s.clone(),
        None => {
            let mut r = String::new();
            strings::push_char(&mut r, '.');
            match ext {
                Some(e) => r.append(e.as_str()),
                None => {
                    let d = match format {
                        FileFormat::Tsv => "tsv",
                        FileFormat::Text => "txt",
                        _ => "csv",
                    };
                    r.append(d);
                },
            }
            r
        },
    }
}

/// The suffix of chunk file names: the one given, else `.` and the input's
/// extension, else `.tsv`, `.txt` or `.csv` by format.
pub fn resolve_suffix(cli: &Cli, format: &FileFormat) -> (r: String)
    ensures
        exists|ext: Option<Seq<char>>|
            r@ == #[trigger] suffix_choice(cli.suffix.deep_view(), ext, *format),
        cli.suffix is None && has_plain_file_name(cli.file@) ==> r@ == suffix_choice(
            None,
            name_extension(file_name_of(cli.file@)),
            *format,
        ),
        cli.suffix matches Some(x) ==> r@ == x@,
        cli.suffix is None && has_no_file_name(cli.file@) ==> r@ == suffix_choice(None, None, *format),
{
    let ext = if cli.suffix.is_none() {
        path_extension(cli.file.as_str())
    } else {
        None
    };
    choose_suffix(&cli.suffix, ext, format)
}

/// `d` with zeros in front up to `width` characters.
pub open spec fn zero_padded(d: Seq<char>, width: nat) -> Seq<char> {
    if d.len() >= width {
        d
    } else {
        Seq::new((width - d.len()) as nat, |i: int| '0') + d
    }
}

/// What comes between the prefix and the part number of a chunk file name:
/// `_part_` after the input's stem, `_` after a prefix that was given.
pub open spec fn name_separator(custom_prefix: bool) -> Seq<char> {
    if custom_prefix {
        "_"@
    } else {
        "_part_"@
    }
}

/// The file name of a chunk: the prefix, the separator, the part number
/// padded with zeros to `digits` places, and the suffix.
pub open spec fn chunk_name(
    prefix: Seq<char>,
    custom_prefix: bool,
    suffix: Seq<char>,
    part: nat,
    digits: nat,
) -> Seq<char> {
    prefix + name_separator(custom_prefix) + zero_padded(strings::decimal_digits(part), digits)
        + suffix
}

/// The file name of a chunk: `large_part_0001.csv` after the input's stem,
/// `sales_chunk_00001.csv` after a given prefix `sales_chunk`.
pub fn chunk_file_name(prefix: &str, custom_prefix: bool, suffix: &str, part: usize, digits: usize) -> (r: String)
    ensures
        r@ == chunk_name(prefix@, custom_prefix, suffix@, part as nat, digits as nat),
{
    let d = strings::decimal_chars(part as u64);
    let mut padded: Vec<char> = Vec::new();
    let pad: usize = if digits > d.len() {
        digits - d.len()
    } else {
        0
    };
    let mut i: usize = 0;
    while i < pad
        invariant
            i <= pad,
            padded@ == Seq::new(i as nat, |j: int| '0'),
        decreases pad - i,
    {
        padded.push('0');
        i = i + 1;
        assert(padded@ =~= Seq::new(i as nat, |j: int| '0'));
    }
    let mut k: usize = 0;
    while k < d.len()
        invariant
            k <= d.len(),
            padded@ == Seq::new(pad as nat, |j: int| '0') + d@.take(k as int),
        decreases d.len() - k,
    {
        padded.push(d[k]);
        k = k + 1;
        assert(padded@ =~= Seq::new(pad as nat, |j: int| '0') + d@.take(k as int));
    }
    assert(d@.take(d.len() as int) =~= d@);
    if digits <= d.len() {
        assert(padded@ =~= d@);
    }
    let mut r = String::from_str(prefix);
    if custom_prefix {
        r.append("_");
    } else {
        r.append("_part_");
    }
    r.append(strings::string_from_chars(&padded).as_str());
    r.append(suffix);
    r
}

// ─── Rows ─────────────────────────────────────────────────────────────────────

/// The delimiter byte for CSV and TSV input: a tab for TSV, else the given
/// character when it is ASCII.
pub open spec fn delimiter_choice(format: FileFormat, delimiter: char) -> Option<u8> {
    if format == FileFormat::Tsv {
        Some(9u8)
    } else if (delimiter as u32) < 128 {
        Some(delimiter as u8)
    } else {
        None
    }
}

/// The delimiter byte for CSV and TSV input; a non-ASCII delimiter is refused.
pub fn resolve_delimiter(format: &FileFormat, delimiter: char) -> (r: Result<u8, FileSplitError>)
    ensures
        match delimiter_choice(*format, delimiter) {
            Some(b) => r == Ok::<u8, FileSplitError>(b),
            None => r matches Err(FileSplitError::InvalidDelimiter(text)) && text@ == seq![
                delimiter,
            ],
        },
{
    if *format == FileFormat::Tsv {
        return Ok(9u8);
    }
    let code = delimiter as u32;
    if code < 128 {
        Ok(code as u8)
    } else {
        let mut text = String::new();
        strings::push_char(&mut text, delimiter);
        assert(text@ =~= seq![delimiter]);
        Err(FileSplitError::InvalidDelimiter(text))
    }
}

/// Whether a field must be quoted: it holds the delimiter, a `"`, a `\r` or a `\n`.
pub open spec fn needs_quotes(field: Seq<u8>, delimiter: u8) -> bool {
    field.contains(delimiter) || field.contains(34u8) || field.contains(13u8) || field.contains(
        10u8,
    )
}

/// `field` with every `"` doubled.
pub open spec fn doubled_quotes(field: Seq<u8>) -> Seq<u8>
    decreases field.len(),
{
    if field.len() == 0 {
        field
    } else if field.last() == 34u8 {
        doubled_quotes(field.drop_last()) + seq![34u8, 34u8]
    } else {
        doubled_quotes(field.drop_last()).push(field.last())
    }
}

/// A field as written: in quotes with its quotes doubled when it needs them,
/// else as it is.
pub open spec fn written_field(field: Seq<u8>, delimiter: u8) -> Seq<u8> {
    if needs_quotes(field, delimiter) {
        seq![34u8] + doubled_quotes(field) + seq![34u8]
    } else {
        field
    }
}

/// The written fields with the delimiter between them.
pub open spec fn joined_fields(fields: Seq<Seq<u8>>, delimiter: u8) -> Seq<u8>
    decreases fields.len(),
{
    if fields.len() == 0 {
        Seq::empty()
    } else if fields.len() == 1 {
        written_field(fields[0], delimiter)
    } else {
        joined_fields(fields.drop_last(), delimiter) + seq![delimiter] + written_field(
            fields.last(),
            delimiter,
        )
    }
}

/// The bytes that `csv::Writer`, built with its default options and the given
/// delimiter, writes for one record: the fields' UTF-8 written and joined as
/// above, `""` in place of a record that would otherwise be empty (no fields,
/// or one empty field), and a `\n`.
pub open spec fn csv_record_encoding(fields: Seq<Seq<char>>, delimiter: u8) -> Seq<u8> {
    let body = joined_fields(fields.map_values(|f: Seq<char>| vstd::utf8::encode_utf8(f)), delimiter);
    (if body.len() == 0 {
        seq![34u8, 34u8]
    } else {
        body
    }) + seq![10u8]
}

/// Why `csv::Writer` could not encode a record.
pub enum CsvWriteFailure {
    /// `Writer::write_record` failed.
    Record(csv::Error),
    /// `Writer::flush` failed.
    Flush(std::io::Error),
}

/// Encodes one record with a `csv::Writer` built by `csv::WriterBuilder` with
/// the given delimiter and no header row, writing into a fresh buffer, then
/// flushes it. With the default `QuoteStyle::Necessary`, `\n` terminator and
/// doubled quotes, the writer quotes a field exactly when it holds the
/// delimiter, `"`, `\r` or `\n` (judged on the whole field when the field
/// starts), and writes `""` before the terminator when nothing else was
/// written for the record. The first record of a writer into a `Vec<u8>`
/// cannot fail: the field count is only compared from the second record on,
/// and writing to a vector does not fail.
#[verifier::external_body]
fn csv_encode(fields: &Vec<String>, delimiter: u8) -> (r: Result<Vec<u8>, CsvWriteFailure>)
    ensures
        r is Ok,
        r matches Ok(bytes) ==> bytes@ == csv_record_encoding(fields.deep_view(), delimiter),
{
    let mut buf: Vec<u8> = Vec::new();
    {
        let mut wtr = csv::WriterBuilder::new().delimiter(delimiter).has_headers(false).from_writer(
            &mut buf,
        );
        if let Err(e) = wtr.write_record(fields) {
            return Err(CsvWriteFailure::Record(e));
        }
        if let Err(e) = wtr.flush() {
            return Err(CsvWriteFailure::Flush(e));
        }
    }
    Ok(buf)
}

/// The bytes of data row number `row` (counted from 1) of a CSV chunk: the
/// record as `csv::Writer` encodes it. An encoding failure is reported with
/// the row's number.
pub fn csv_row_bytes(fields: &Vec<String>, delimiter: u8, row: u64) -> (r: Result<Vec<u8>, FileSplitError>)
    ensures
        r is Ok,
        r matches Ok(bytes) ==> bytes@ == csv_record_encoding(fields.deep_view(), delimiter),
{
    match csv_encode(fields, delimiter) {
        Ok(bytes) => Ok(bytes),
        Err(CsvWriteFailure::Record(e)) => Err(FileSplitError::CsvParse { row, source: e }),
        Err(CsvWriteFailure::Flush(e)) => Err(FileSplitError::Io(e)),
    }
}

/// The header line written at the top of every CSV chunk: the header record
/// encoded as `csv::Writer` encodes any record, so that it reads back as the
/// same fields.
pub fn header_line(fields: &Vec<String>, delimiter: u8) -> (r: Vec<u8>)
    ensures
        r@ == csv_record_encoding(fields.deep_view(), delimiter),
{
    match csv_encode(fields, delimiter) {
        Ok(bytes) => bytes,
        Err(_) => {
            assert(false);
            Vec::new()
        },
    }
}

/// The bytes of a line of a text chunk: the line's UTF-8 and a line end.
pub fn text_row_bytes(line: &str) -> (r: Vec<u8>)
    ensures
        r@ == line.spec_bytes().push(10u8),
{
    let mut r = line.as_bytes_vec();
    r.push(10u8);
    r
}

// ─── Laws ─────────────────────────────────────────────────────────────────────

/// The rows of a text split: each line's UTF-8 and a line feed, as
/// [`text_row_bytes`] writes them.
pub open spec fn text_rows(lines: Seq<Seq<char>>) -> Seq<Seq<u8>> {
    lines.map_values(|l: Seq<char>| vstd::utf8::encode_utf8(l).push(10u8))
}

/// The rows of a CSV split: each record as [`csv_row_bytes`] writes it.
pub open spec fn csv_rows(records: Seq<Seq<Seq<char>>>, delimiter: u8) -> Seq<Seq<u8>> {
    records.map_values(|r: Seq<Seq<char>>| csv_record_encoding(r, delimiter))
}

/// The length of the unquoted field at the start of `b`: the bytes before the
/// first delimiter, or all of them.
pub open spec fn unquoted_end(b: Seq<u8>, delimiter: u8) -> nat
    decreases b.len(),
{
    if b.len() == 0 || b[0] == delimiter {
        0
    } else {
        1 + unquoted_end(b.drop_first(), delimiter)
    }
}

/// Reads a quoted field's contents from `b`, which starts just after its
/// opening quote: `""` stands for one `"`, and a lone `"` closes the field.
/// Gives the contents and the bytes after the closing quote.
pub open spec fn unquote(b: Seq<u8>) -> (Seq<u8>, Seq<u8>)
    decreases b.len(),
{
    if b.len() == 0 {
        (Seq::empty(), Seq::empty())
    } else if b[0] == 34u8 {
        if b.len() >= 2 && b[1] == 34u8 {
            let (c, r) = unquote(b.skip(2));
            (seq![34u8] + c, r)
        } else {
            (Seq::empty(), b.drop_first())
        }
    } else {
        let (c, r) = unquote(b.drop_first());
        (seq![b[0]] + c, r)
    }
}

/// Reading a quoted field never leaves more bytes than it was given.
pub proof fn lemma_unquote_rest(b: Seq<u8>)
    ensures
        unquote(b).1.len() <= b.len(),
    decreases b.len(),
{
    if b.len() > 0 {
        if b[0] == 34u8 {
            if b.len() >= 2 && b[1] == 34u8 {
                lemma_unquote_rest(b.skip(2));
            }
        } else {
            lemma_unquote_rest(b.drop_first());
        }
    }
}

/// The fields of a record's bytes (without its line end), read as CSV is
/// read: a field starting with `"` is quoted and ends at its closing quote,
/// any other ends before the next delimiter; a delimiter after a field starts
/// the next one.
pub open spec fn record_fields(b: Seq<u8>, delimiter: u8) -> Seq<Seq<u8>>
    decreases b.len(),
{
    if b.len() > 0 && b[0] == 34u8 {
        let (c, r) = unquote(b.drop_first());
        if r.len() > 0 && r[0] == delimiter {
            proof {
                lemma_unquote_rest(b.drop_first());
            }
            seq![c] + record_fields(r.drop_first(), delimiter)
        } else {
            seq![c]
        }
    } else {
        let k = unquoted_end(b, delimiter);
        if k < b.len() {
            seq![b.take(k as int)] + record_fields(b.skip((k + 1) as int), delimiter)
        } else {
            seq![b]
        }
    }
}

proof fn lemma_unquoted_end(f: Seq<u8>, s: Seq<u8>, delimiter: u8)
    requires
        !f.contains(delimiter),
        s.len() == 0 || s[0] == delimiter,
    ensures
        unquoted_end(f + s, delimiter) == f.len(),
    decreases f.len(),
{
    if f.len() == 0 {
        assert(f + s =~= s);
    } else {
        assert(f[0] != delimiter) by {
            if f[0] == delimiter {
                assert(f.contains(delimiter));
            }
        }
        assert((f + s)[0] == f[0]);
        assert((f + s).drop_first() =~= f.drop_first() + s);
        assert(!f.drop_first().contains(delimiter)) by {
            if f.drop_first().contains(delimiter) {
                let j = choose|j: int| 0 <= j < f.drop_first().len() && f.drop_first()[j] == delimiter;
                assert(f[j + 1] == delimiter);
            }
        }
        lemma_unquoted_end(f.drop_first(), s, delimiter);
    }
}

proof fn lemma_doubled_quotes_concat(x: Seq<u8>, y: Seq<u8>)
    ensures
        doubled_quotes(x + y) == doubled_quotes(x) + doubled_quotes(y),
    decreases y.len(),
{
    if y.len() == 0 {
        assert(x + y =~= x);
        assert(doubled_quotes(x) + doubled_quotes(y) =~= doubled_quotes(x));
    } else {
        lemma_doubled_quotes_concat(x, y.drop_last());
        assert((x + y).drop_last() =~= x + y.drop_last());
        assert((x + y).last() == y.last());
        if y.last() == 34u8 {
            assert(doubled_quotes(x) + (doubled_quotes(y.drop_last()) + seq![34u8, 34u8]) =~= (
            doubled_quotes(x) + doubled_quotes(y.drop_last())) + seq![34u8, 34u8]);
        } else {
            assert(doubled_quotes(x) + doubled_quotes(y.drop_last()).push(y.last()) =~= (
            doubled_quotes(x) + doubled_quotes(y.drop_last())).push(y.last()));
        }
    }
}

proof fn lemma_unquote_doubled(f: Seq<u8>, s: Seq<u8>)
    requires
        s.len() == 0 || s[0] != 34u8,
    ensures
        unquote(doubled_quotes(f) + seq![34u8] + s) == (f, s),
    decreases f.len(),
{
    let b = doubled_quotes(f) + seq![34u8] + s;
    if f.len() == 0 {
        assert(doubled_quotes(f) =~= Seq::<u8>::empty());
        assert(b =~= seq![34u8] + s);
        assert(b.drop_first() =~= s);
        assert(f =~= Seq::<u8>::empty());
    } else {
        let c = f[0];
        let g = f.drop_first();
        assert(f =~= seq![c] + g);
        lemma_doubled_quotes_concat(seq![c], g);
        let one = seq![c];
        assert(one.drop_last() =~= Seq::<u8>::empty());
        assert(one.last() == c);
        assert(doubled_quotes(Seq::<u8>::empty()) =~= Seq::<u8>::empty());
        assert(doubled_quotes(one.drop_last()) =~= Seq::<u8>::empty());
        lemma_unquote_doubled(g, s);
        let rest = doubled_quotes(g) + seq![34u8] + s;
        if c == 34u8 {
            assert(doubled_quotes(seq![c]) =~= seq![34u8, 34u8]);
            assert(b =~= seq![34u8, 34u8] + rest);
            assert(b.skip(2) =~= rest);
            assert(seq![34u8] + g =~= f);
        } else {
            assert(doubled_quotes(seq![c]) =~= seq![c]);
            assert(b =~= seq![c] + rest);
            assert(b.drop_first() =~= rest);
            assert(seq![c] + g =~= f);
        }
    }
}

proof fn lemma_read_field(f: Seq<u8>, s: Seq<u8>, delimiter: u8)
    requires
        delimiter != 34u8,
        s.len() == 0 || s[0] == delimiter,
    ensures
        record_fields(written_field(f, delimiter) + s, delimiter) == seq![f] + (if s.len() == 0 {
            Seq::<Seq<u8>>::empty()
        } else {
            record_fields(s.drop_first(), delimiter)
        }),
{
    let b = written_field(f, delimiter) + s;
    if needs_quotes(f, delimiter) {
        let q = doubled_quotes(f) + seq![34u8] + s;
        assert(b =~= seq![34u8] + q);
        assert(b.drop_first() =~= q);
        lemma_unquote_doubled(f, s);
        if s.len() == 0 {
            assert(seq![f] + Seq::<Seq<u8>>::empty() =~= seq![f]);
        }
    } else {
        assert(!f.contains(delimiter) && !f.contains(34u8));
        lemma_unquoted_end(f, s, delimiter);
        if f.len() > 0 {
            assert(b[0] == f[0]);
            if f[0] == 34u8 {
                assert(f.contains(34u8));
            }
        } else {
            assert(b =~= s);
        }
        if s.len() == 0 {
            assert(b =~= f);
            assert(seq![f] + Seq::<Seq<u8>>::empty() =~= seq![f]);
        } else {
            assert(b.take(f.len() as int) =~= f);
            assert(b.skip((f.len() + 1) as int) =~= s.drop_first());
        }
    }
}

proof fn lemma_joined_front(fs: Seq<Seq<u8>>, delimiter: u8)
    requires
        fs.len() >= 2,
    ensures
        joined_fields(fs, delimiter) == written_field(fs[0], delimiter) + (seq![delimiter]
            + joined_fields(fs.drop_first(), delimiter)),
    decreases fs.len(),
{
    let w0 = written_field(fs[0], delimiter);
    let wl = written_field(fs.last(), delimiter);
    if fs.len() == 2 {
        assert(fs.drop_last().len() == 1);
        assert(fs.drop_first().len() == 1);
        assert(joined_fields(fs.drop_last(), delimiter) == w0);
        assert(joined_fields(fs.drop_first(), delimiter) == wl);
        assert(w0 + seq![delimiter] + wl =~= w0 + (seq![delimiter] + wl));
    } else {
        lemma_joined_front(fs.drop_last(), delimiter);
        assert(fs.drop_last()[0] == fs[0]);
        assert(fs.drop_first().drop_last() =~= fs.drop_last().drop_first());
        assert(fs.drop_first().last() == fs.last());
        let mid = joined_fields(fs.drop_last().drop_first(), delimiter);
        assert(joined_fields(fs.drop_first(), delimiter) == mid + seq![delimiter] + wl);
        assert(w0 + (seq![delimiter] + mid) + seq![delimiter] + wl =~= w0 + (seq![delimiter] + (mid
            + seq![delimiter] + wl)));
    }
}

proof fn lemma_joined_reads_back(fs: Seq<Seq<u8>>, delimiter: u8)
    requires
        fs.len() >= 1,
        delimiter != 34u8,
    ensures
        record_fields(joined_fields(fs, delimiter), delimiter) == fs,
    decreases fs.len(),
{
    if fs.len() == 1 {
        let e = Seq::<u8>::empty();
        lemma_read_field(fs[0], e, delimiter);
        assert(written_field(fs[0], delimiter) + e =~= written_field(fs[0], delimiter));
        assert(seq![fs[0]] + Seq::<Seq<u8>>::empty() =~= fs);
    } else {
        lemma_joined_front(fs, delimiter);
        let s = seq![delimiter] + joined_fields(fs.drop_first(), delimiter);
        lemma_read_field(fs[0], s, delimiter);
        assert(s.drop_first() =~= joined_fields(fs.drop_first(), delimiter));
        lemma_joined_reads_back(fs.drop_first(), delimiter);
        assert(seq![fs[0]] + fs.drop_first() =~= fs);
    }
}

proof fn lemma_joined_empty(fs: Seq<Seq<u8>>, delimiter: u8)
    requires
        fs.len() >= 1,
        joined_fields(fs, delimiter).len() == 0,
    ensures
        fs =~= seq![Seq::<u8>::empty()],
{
    if fs.len() >= 2 {
        assert(joined_fields(fs, delimiter).len() >= 1);
    } else {
        if needs_quotes(fs[0], delimiter) {
            assert(written_field(fs[0], delimiter).len() >= 2);
        }
        assert(fs[0] =~= Seq::<u8>::empty());
    }
}

/// A record written by the csv writer reads back as the same fields: its bytes
/// end in a line feed, and the bytes before it split into exactly the fields'
/// UTF-8, which decode to the fields. (A record with no fields is written as
/// one empty field, so it needs at least one; and the delimiter cannot be `"`.)
pub proof fn law_csv_record_reads_back(fields: Seq<Seq<char>>, delimiter: u8)
    requires
        fields.len() >= 1,
        delimiter != 34u8,
    ensures
        csv_record_encoding(fields, delimiter).last() == 10u8,
        record_fields(csv_record_encoding(fields, delimiter).drop_last(), delimiter) == fields.map_values(
            |f: Seq<char>| vstd::utf8::encode_utf8(f),
        ),
        record_fields(csv_record_encoding(fields, delimiter).drop_last(), delimiter).map_values(
            |b: Seq<u8>| vstd::utf8::decode_utf8(b),
        ) == fields,
{
    let fs = fields.map_values(|f: Seq<char>| vstd::utf8::encode_utf8(f));
    let body = joined_fields(fs, delimiter);
    let r = csv_record_encoding(fields, delimiter);
    let shown = if body.len() == 0 {
        seq![34u8, 34u8]
    } else {
        body
    };
    assert(r == shown + seq![10u8]);
    assert(r.drop_last() =~= shown);
    lemma_joined_reads_back(fs, delimiter);
    if body.len() == 0 {
        lemma_joined_empty(fs, delimiter);
        let e = Seq::<u8>::empty();
        lemma_read_field(e, e, delimiter);
        assert(needs_quotes(e, delimiter) == false);
        assert(written_field(e, delimiter) + e =~= e);
        let q = seq![34u8, 34u8];
        assert(q.drop_first() =~= seq![34u8]);
        assert(seq![34u8].drop_first() =~= e);
        assert(unquote(seq![34u8]) == (e, e));
        assert(record_fields(q, delimiter) =~= seq![e]);
    }
    let back = record_fields(r.drop_last(), delimiter);
    assert(back == fs);
    let decoded = back.map_values(|b: Seq<u8>| vstd::utf8::decode_utf8(b));
    assert forall|i: int| 0 <= i < fields.len() implies #[trigger] decoded[i] == fields[i] by {
        vstd::utf8::encode_utf8_decode_utf8(fields[i]);
    }
    assert(decoded =~= fields);
}

/// Whether a byte read in the given quote state leaves the reader inside quotes.
pub open spec fn quoted_next(b: u8, quoted: bool) -> bool {
    if b == 34u8 {
        !quoted
    } else {
        quoted
    }
}

/// Whether the reader is inside quotes after reading `b` from the state `quoted`.
pub open spec fn quoted_after(b: Seq<u8>, quoted: bool) -> bool
    decreases b.len(),
{
    if b.len() == 0 {
        quoted
    } else {
        quoted_after(b.drop_first(), quoted_next(b[0], quoted))
    }
}

/// Whether `b`, read from the state `quoted`, holds no line feed outside quotes.
pub open spec fn no_bare_line_end(b: Seq<u8>, quoted: bool) -> bool
    decreases b.len(),
{
    if b.len() == 0 {
        true
    } else {
        !(b[0] == 10u8 && !quoted) && no_bare_line_end(b.drop_first(), quoted_next(b[0], quoted))
    }
}

/// The length of the record at the start of `b`, read from the state
/// `quoted`: up to and with its first line feed outside quotes, or all of `b`.
pub open spec fn line_end(b: Seq<u8>, quoted: bool) -> nat
    decreases b.len(),
{
    if b.len() == 0 {
        0
    } else if b[0] == 10u8 && !quoted {
        1
    } else {
        1 + line_end(b.drop_first(), quoted_next(b[0], quoted))
    }
}

/// A record read from bytes that are not empty takes at least one of them and
/// no more than there are.
pub proof fn lemma_line_end_bounds(b: Seq<u8>, quoted: bool)
    requires
        b.len() > 0,
    ensures
        1 <= line_end(b, quoted) <= b.len(),
    decreases b.len(),
{
    if !(b[0] == 10u8 && !quoted) {
        if b.len() > 1 {
            lemma_line_end_bounds(b.drop_first(), quoted_next(b[0], quoted));
        } else {
            assert(line_end(b.drop_first(), quoted_next(b[0], quoted)) == 0);
        }
    }
}

/// The records of CSV bytes, each as its fields' bytes: a record ends at its
/// first line feed outside quotes.
pub open spec fn read_records(b: Seq<u8>, delimiter: u8) -> Seq<Seq<Seq<u8>>>
    decreases b.len(),
{
    if b.len() == 0 {
        Seq::empty()
    } else {
        let k = line_end(b, false);
        proof {
            lemma_line_end_bounds(b, false);
        }
        seq![record_fields(b.take(k as int).drop_last(), delimiter)] + read_records(
            b.skip(k as int),
            delimiter,
        )
    }
}

proof fn lemma_scan_one(b: u8, q: bool)
    ensures
        quoted_after(seq![b], q) == quoted_next(b, q),
        no_bare_line_end(seq![b], q) == !(b == 10u8 && !q),
{
    let e = Seq::<u8>::empty();
    assert(seq![b].drop_first() =~= e);
    assert(quoted_after(e, quoted_next(b, q)) == quoted_next(b, q));
    assert(no_bare_line_end(e, quoted_next(b, q)));
}

proof fn lemma_scan_concat(x: Seq<u8>, y: Seq<u8>, q: bool)
    ensures
        quoted_after(x + y, q) == quoted_after(y, quoted_after(x, q)),
        no_bare_line_end(x + y, q) == (no_bare_line_end(x, q) && no_bare_line_end(
            y,
            quoted_after(x, q),
        )),
    decreases x.len(),
{
    if x.len() == 0 {
        assert(x + y =~= y);
    } else {
        assert((x + y)[0] == x[0]);
        assert((x + y).drop_first() =~= x.drop_first() + y);
        lemma_scan_concat(x.drop_first(), y, quoted_next(x[0], q));
    }
}

proof fn lemma_line_end_at(x: Seq<u8>, rest: Seq<u8>, q: bool)
    requires
        no_bare_line_end(x, q),
        !quoted_after(x, q),
    ensures
        line_end(x + seq![10u8] + rest, q) == x.len() + 1,
    decreases x.len(),
{
    let b = x + seq![10u8] + rest;
    if x.len() == 0 {
        assert(b[0] == 10u8);
    } else {
        assert(b[0] == x[0]);
        assert(b.drop_first() =~= x.drop_first() + seq![10u8] + rest);
        lemma_line_end_at(x.drop_first(), rest, quoted_next(x[0], q));
    }
}

proof fn lemma_plain_scan(f: Seq<u8>, q: bool)
    requires
        !f.contains(34u8),
        !f.contains(10u8),
    ensures
        quoted_after(f, q) == q,
        no_bare_line_end(f, q),
    decreases f.len(),
{
    if f.len() > 0 {
        assert(f[0] != 34u8 && f[0] != 10u8) by {
            assert(f.contains(f[0]));
        }
        assert(!f.drop_first().contains(34u8) && !f.drop_first().contains(10u8)) by {
            if f.drop_first().contains(34u8) {
                let j = choose|j: int| 0 <= j < f.drop_first().len() && f.drop_first()[j] == 34u8;
                assert(f[j + 1] == 34u8);
            }
            if f.drop_first().contains(10u8) {
                let j = choose|j: int| 0 <= j < f.drop_first().len() && f.drop_first()[j] == 10u8;
                assert(f[j + 1] == 10u8);
            }
        }
        lemma_plain_scan(f.drop_first(), q);
    }
}

proof fn lemma_doubled_scan(f: Seq<u8>)
    ensures
        quoted_after(doubled_quotes(f), true),
        no_bare_line_end(doubled_quotes(f), true),
    decreases f.len(),
{
    if f.len() > 0 {
        lemma_doubled_scan(f.drop_last());
        let p = doubled_quotes(f.drop_last());
        let t = if f.last() == 34u8 {
            seq![34u8, 34u8]
        } else {
            seq![f.last()]
        };
        assert(doubled_quotes(f) =~= p + t);
        lemma_scan_concat(p, t, true);
        if f.last() == 34u8 {
            lemma_scan_one(34u8, true);
            lemma_scan_one(34u8, false);
            lemma_scan_concat(seq![34u8], seq![34u8], true);
            assert(seq![34u8] + seq![34u8] =~= t);
        } else {
            lemma_scan_one(f.last(), true);
        }
    }
}

proof fn lemma_field_scan(f: Seq<u8>, delimiter: u8)
    ensures
        !quoted_after(written_field(f, delimiter), false),
        no_bare_line_end(written_field(f, delimiter), false),
{
    if needs_quotes(f, delimiter) {
        let d = doubled_quotes(f);
        lemma_doubled_scan(f);
        lemma_scan_concat(seq![34u8], d, false);
        lemma_scan_concat(seq![34u8] + d, seq![34u8], false);
        lemma_scan_one(34u8, false);
        lemma_scan_one(34u8, true);
        assert(written_field(f, delimiter) =~= seq![34u8] + d + seq![34u8]);
    } else {
        lemma_plain_scan(f, false);
    }
}

proof fn lemma_joined_scan(fs: Seq<Seq<u8>>, delimiter: u8)
    requires
        delimiter != 34u8,
        delimiter != 10u8,
    ensures
        !quoted_after(joined_fields(fs, delimiter), false),
        no_bare_line_end(joined_fields(fs, delimiter), false),
    decreases fs.len(),
{
    if fs.len() == 1 {
        lemma_field_scan(fs[0], delimiter);
    } else if fs.len() > 1 {
        lemma_joined_scan(fs.drop_last(), delimiter);
        let a = joined_fields(fs.drop_last(), delimiter);
        let w = written_field(fs.last(), delimiter);
        lemma_field_scan(fs.last(), delimiter);
        lemma_scan_concat(a, seq![delimiter], false);
        lemma_scan_concat(a + seq![delimiter], w, false);
        lemma_scan_one(delimiter, false);
        assert(joined_fields(fs, delimiter) =~= a + seq![delimiter] + w);
    }
}

/// The UTF-8 of each field of each record.
pub open spec fn utf8_records(records: Seq<Seq<Seq<char>>>) -> Seq<Seq<Seq<u8>>> {
    records.map_values(
        |r: Seq<Seq<char>>| r.map_values(|f: Seq<char>| vstd::utf8::encode_utf8(f)),
    )
}

proof fn lemma_record_splits_off(fields: Seq<Seq<char>>, rest: Seq<u8>, delimiter: u8)
    requires
        fields.len() >= 1,
        delimiter != 34u8,
        delimiter != 10u8,
    ensures
        line_end(csv_record_encoding(fields, delimiter) + rest, false) == csv_record_encoding(
            fields,
            delimiter,
        ).len(),
{
    let fs = fields.map_values(|f: Seq<char>| vstd::utf8::encode_utf8(f));
    let body = joined_fields(fs, delimiter);
    let shown = if body.len() == 0 {
        seq![34u8, 34u8]
    } else {
        body
    };
    if body.len() == 0 {
        lemma_scan_concat(seq![34u8], seq![34u8], false);
        lemma_scan_one(34u8, false);
        lemma_scan_one(34u8, true);
        assert(seq![34u8] + seq![34u8] =~= shown);
    } else {
        lemma_joined_scan(fs, delimiter);
    }
    lemma_line_end_at(shown, rest, false);
    assert(csv_record_encoding(fields, delimiter) + rest =~= shown + seq![10u8] + rest);
}

/// CSV records written one after another read back as the same records, each
/// with the same fields: reading splits the bytes at each line feed outside
/// quotes and each record at its delimiters. (Each record needs a field, and
/// the delimiter can be neither `"` nor a line feed.)
pub proof fn law_csv_records_read_back(records: Seq<Seq<Seq<char>>>, delimiter: u8)
    requires
        forall|j: int| 0 <= j < records.len() ==> #[trigger] records[j].len() >= 1,
        delimiter != 34u8,
        delimiter != 10u8,
    ensures
        read_records(planner::joined_rows(csv_rows(records, delimiter)), delimiter) == utf8_records(
            records,
        ),
    decreases records.len(),
{
    let rows = csv_rows(records, delimiter);
    if records.len() == 0 {
        assert(utf8_records(records) =~= Seq::<Seq<Seq<u8>>>::empty());
    } else {
        let first = csv_record_encoding(records[0], delimiter);
        let tail = records.drop_first();
        assert(rows =~= seq![first] + csv_rows(tail, delimiter));
        planner::lemma_joined_rows_concat(seq![first], csv_rows(tail, delimiter));
        assert(seq![first].drop_last() =~= Seq::<Seq<u8>>::empty());
        assert(planner::joined_rows(Seq::<Seq<u8>>::empty()) =~= Seq::<u8>::empty());
        assert(planner::joined_rows(seq![first]) =~= first);
        let rest = planner::joined_rows(csv_rows(tail, delimiter));
        let b = first + rest;
        assert(planner::joined_rows(rows) == b);
        assert forall|j: int| 0 <= j < tail.len() implies #[trigger] tail[j].len() >= 1 by {
            assert(tail[j] == records[j + 1]);
        }
        law_csv_records_read_back(tail, delimiter);
        lemma_record_splits_off(records[0], rest, delimiter);
        law_csv_record_reads_back(records[0], delimiter);
        let k = first.len();
        assert(first.len() > 0);
        assert(b.take(k as int) =~= first);
        assert(b.skip(k as int) =~= rest);
        assert(utf8_records(records) =~= seq![utf8_records(records)[0]] + utf8_records(tail));
    }
}

/// The chunk files of a text split, read one after another, give back the
/// input: every line, in order, each followed by a line feed. (`lens` are the
/// rows' byte counts that the planner was given.)
pub proof fn law_text_chunks_rebuild_input(mode: SplitMode, lines: Seq<Seq<char>>, lens: Seq<u64>)
    requires
        lens.len() == lines.len(),
        forall|j: int| 0 <= j < lines.len() ==> #[trigger] lens[j] == text_rows(lines)[j].len(),
    ensures
        planner::chunks_data(
            planner::plan_chunks(mode, 0, lens),
            text_rows(lines),
            planner::plan_chunks(mode, 0, lens).len(),
        ) == planner::joined_rows(text_rows(lines)),
{
    let rows = text_rows(lines);
    assert forall|j: int| 0 <= j < rows.len() implies #[trigger] rows[j].len() == lens[j] by {
        assert(lens[j] == text_rows(lines)[j].len());
    }
    planner::law_chunks_rebuild_rows(mode, 0, lens, rows);
}

/// The bytes of chunk `i` of a CSV split: the header line, when there is one,
/// and the chunk's records as the csv writer writes them.
pub open spec fn csv_chunk_file(
    header: Option<Seq<Seq<char>>>,
    c: Seq<planner::Tally>,
    records: Seq<Seq<Seq<char>>>,
    delimiter: u8,
    i: int,
) -> Seq<u8> {
    let data = planner::joined_rows(planner::chunk_rows(c, csv_rows(records, delimiter), i));
    match header {
        Some(h) => csv_record_encoding(h, delimiter) + data,
        None => data,
    }
}

/// The chunk files of a CSV split read back as the input: each file reads as
/// the header record (when one is copied) followed by the file's own records,
/// field for field, and the files' records, one file after another, are
/// exactly the input's records in order. `lens` are the records' written
/// lengths and `header_len` the header line's, as the planner was given them.
/// (Every record and the header need a field, and the delimiter can be
/// neither `"` nor a line feed.)
pub proof fn law_csv_chunks_read_back(
    mode: SplitMode,
    header: Option<Seq<Seq<char>>>,
    header_len: nat,
    records: Seq<Seq<Seq<char>>>,
    delimiter: u8,
    lens: Seq<u64>,
)
    requires
        lens.len() == records.len(),
        forall|j: int|
            0 <= j < records.len() ==> #[trigger] lens[j] == csv_rows(records, delimiter)[j].len(),
        forall|j: int| 0 <= j < records.len() ==> #[trigger] records[j].len() >= 1,
        header matches Some(h) ==> h.len() >= 1,
        delimiter != 34u8,
        delimiter != 10u8,
    ensures
        forall|i: int|
            0 <= i < planner::plan_chunks(mode, header_len, lens).len() ==> read_records(
                #[trigger] csv_chunk_file(
                    header,
                    planner::plan_chunks(mode, header_len, lens),
                    records,
                    delimiter,
                    i,
                ),
                delimiter,
            ) == match header {
                Some(h) => seq![h.map_values(|f: Seq<char>| vstd::utf8::encode_utf8(f))]
                    + planner::chunk_rows(
                    planner::plan_chunks(mode, header_len, lens),
                    utf8_records(records),
                    i,
                ),
                None => planner::chunk_rows(
                    planner::plan_chunks(mode, header_len, lens),
                    utf8_records(records),
                    i,
                ),
            },
        planner::chunks_rows(
            planner::plan_chunks(mode, header_len, lens),
            utf8_records(records),
            planner::plan_chunks(mode, header_len, lens).len(),
        ) == utf8_records(records),
{
    let c = planner::plan_chunks(mode, header_len, lens);
    planner::law_chunks_keep_row_order(mode, header_len, lens, utf8_records(records));
    planner::law_rows_and_bytes_conserved(mode, header_len, lens);
    assert forall|i: int| 0 <= i < c.len() implies read_records(
        #[trigger] csv_chunk_file(header, c, records, delimiter, i),
        delimiter,
    ) == match header {
        Some(h) => seq![h.map_values(|f: Seq<char>| vstd::utf8::encode_utf8(f))]
            + planner::chunk_rows(c, utf8_records(records), i),
        None => planner::chunk_rows(c, utf8_records(records), i),
    } by {
        planner::law_chunks_are_consecutive_runs(mode, header_len, lens);
        assert(planner::plan_chunks(mode, header_len, lens)[i].part == i + 1);
        assert(planner::holds_run(c, lens, i));
        let a = planner::chunk_start(c, i) as int;
        let b = a + c[i].rows;
        let sub = records.subrange(a, b);
        assert(planner::chunk_rows(c, csv_rows(records, delimiter), i) =~= csv_rows(sub, delimiter));
        assert(planner::chunk_rows(c, utf8_records(records), i) =~= utf8_records(sub));
        assert forall|j: int| 0 <= j < sub.len() implies #[trigger] sub[j].len() >= 1 by {
            assert(sub[j] == records[a + j]);
        }
        law_csv_records_read_back(sub, delimiter);
        let data = planner::joined_rows(csv_rows(sub, delimiter));
        match header {
            Some(h) => {
                let hb = csv_record_encoding(h, delimiter);
                let file = hb + data;
                lemma_record_splits_off(h, data, delimiter);
                law_csv_record_reads_back(h, delimiter);
                assert(file.len() > 0);
                assert(file.take(hb.len() as int) =~= hb);
                assert(file.skip(hb.len() as int) =~= data);
            },
            None => {},
        }
    }
}

proof fn lemma_zeros_value(k: nat)
    ensures
        strings::digits_value(Seq::new(k, |i: int| '0')) == 0,
        strings::all_digits(Seq::new(k, |i: int| '0')),
    decreases k,
{
    let z = Seq::new(k, |i: int| '0');
    if k > 0 {
        lemma_zeros_value((k - 1) as nat);
        assert(z.drop_last() =~= Seq::new((k - 1) as nat, |i: int| '0'));
    }
}

proof fn lemma_leading_zeros_value(z: Seq<char>, d: Seq<char>)
    requires
        strings::digits_value(z) == 0,
    ensures
        strings::digits_value(z + d) == strings::digits_value(d),
    decreases d.len(),
{
    if d.len() == 0 {
        assert(z + d =~= z);
    } else {
        lemma_leading_zeros_value(z, d.drop_last());
        assert((z + d).drop_last() =~= z + d.drop_last());
    }
}

/// Zero padding does not change the value of a numeral.
proof fn lemma_padded_value(n: nat, width: nat)
    ensures
        strings::digits_value(zero_padded(strings::decimal_digits(n), width)) == n,
{
    strings::lemma_decimal_digits(n);
    let d = strings::decimal_digits(n);
    if d.len() < width {
        lemma_zeros_value((width - d.len()) as nat);
        lemma_leading_zeros_value(Seq::new((width - d.len()) as nat, |i: int| '0'), d);
    }
}

/// Different parts get different chunk file names, whatever the padding.
pub proof fn law_chunk_names_differ(
    prefix: Seq<char>,
    custom_prefix: bool,
    suffix: Seq<char>,
    a: nat,
    b: nat,
    digits: nat,
)
    requires
        a != b,
    ensures
        chunk_name(prefix, custom_prefix, suffix, a, digits) != chunk_name(
            prefix,
            custom_prefix,
            suffix,
            b,
            digits,
        ),
{
    let xa = zero_padded(strings::decimal_digits(a), digits);
    let xb = zero_padded(strings::decimal_digits(b), digits);
    lemma_padded_value(a, digits);
    lemma_padded_value(b, digits);
    let na = chunk_name(prefix, custom_prefix, suffix, a, digits);
    let nb = chunk_name(prefix, custom_prefix, suffix, b, digits);
    let sep = name_separator(custom_prefix);
    if na == nb {
        let start = (prefix.len() + sep.len()) as int;
        assert(na.len() == prefix.len() + sep.len() + xa.len() + suffix.len());
        assert(nb.len() == prefix.len() + sep.len() + xb.len() + suffix.len());
        assert(xa.len() == xb.len());
        assert(na.subrange(start, start + xa.len() as int) =~= xa);
        assert(nb.subrange(start, start + xb.len() as int) =~= xb);
        assert(xa == xb);
    }
}


/// A part number padded to `width` places is exactly `width` characters long
/// when it has fewer digits, and its own digits otherwise; the characters in
/// front of its digits are all `0`. So the part numbers of a split whose parts
/// have at most `width` digits all have the same length.
pub proof fn law_padded_width(part: nat, width: nat)
    ensures
        ({
            let d = strings::decimal_digits(part);
            let z = zero_padded(d, width);
            &&& z.len() == if width > d.len() {
                width
            } else {
                d.len()
            }
            &&& z.skip(z.len() - d.len()) == d
            &&& forall|i: int| 0 <= i < z.len() - d.len() ==> #[trigger] z[i] == '0'
        }),
{
    let d = strings::decimal_digits(part);
    let z = zero_padded(d, width);
    if d.len() < width {
        let k = (width - d.len()) as int;
        assert(z.skip(k) =~= d);
        assert forall|i: int| 0 <= i < z.len() - d.len() implies #[trigger] z[i] == '0' by {
            assert(z[i] == Seq::new(k as nat, |j: int| '0')[i]);
        }
    } else {
        assert(z.skip(0) =~= d);
    }
}

/// Chunk file names of one split, with the same prefix, suffix and padding,
/// have the same length for every part number of at most `digits` digits.
pub proof fn law_chunk_names_same_length(
    prefix: Seq<char>,
    custom_prefix: bool,
    suffix: Seq<char>,
    a: nat,
    b: nat,
    digits: nat,
)
    requires
        strings::decimal_digits(a).len() <= digits,
        strings::decimal_digits(b).len() <= digits,
    ensures
        chunk_name(prefix, custom_prefix, suffix, a, digits).len() == chunk_name(
            prefix,
            custom_prefix,
            suffix,
            b,
            digits,
        ).len(),
        chunk_name(prefix, custom_prefix, suffix, a, digits).len() == prefix.len()
            + name_separator(custom_prefix).len() + digits + suffix.len(),
{
    law_padded_width(a, digits);
    law_padded_width(b, digits);
}

/// Where a chunk file goes: with no directory, or the `.` that stands for the
/// input's own directory when none was given, the path is the file name; else
/// it is the directory, one `/` (added only when the directory does not
/// already end in one) and the file name.
pub proof fn law_chunk_path_shape(dir_given: bool, dir: Seq<char>, name: Seq<char>)
    ensures
        dir.len() == 0 || (!dir_given && dir == "."@) ==> joined_path(dir_given, dir, name) == name,
        !(dir.len() == 0 || (!dir_given && dir == "."@)) ==> ({
            let p = joined_path(dir_given, dir, name);
            let slash: int = if dir[dir.len() - 1] == '/' {
                0
            } else {
                1
            };
            &&& p.len() == dir.len() + slash + name.len()
            &&& p.take(dir.len() as int) == dir
            &&& p.skip(p.len() - name.len()) == name
            &&& p[p.len() - name.len() - 1] == '/'
        }),
{
    if !(dir.len() == 0 || (!dir_given && dir == "."@)) {
        let p = joined_path(dir_given, dir, name);
        if dir.last() == '/' {
            assert(p =~= dir + name);
            assert(p.take(dir.len() as int) =~= dir);
            assert(p.skip(p.len() - name.len()) =~= name);
            assert(p[p.len() - name.len() - 1] == dir[dir.len() - 1]);
        } else {
            assert(p =~= dir + seq!['/'] + name);
            assert(p.take(dir.len() as int) =~= dir);
            assert(p.skip(p.len() - name.len()) =~= name);
            assert(p[p.len() - name.len() - 1] == '/');
        }
    }
}

/// How a file's extension decides its format, in any ASCII case: `txt`,
/// `log`, `ndjson` and `jsonl` are read as text, `tsv` as TSV, and any other
/// extension (or none, read as empty) as CSV.
pub proof fn law_extension_formats(ext: Seq<char>)
    requires
        strings::all_ascii(ext),
    ensures
        strings::ascii_lower(ext) == "txt"@ || strings::ascii_lower(ext) == "log"@
            || strings::ascii_lower(ext) == "ndjson"@ || strings::ascii_lower(ext) == "jsonl"@
            ==> extension_format(lowercase_of(ext)) == FileFormat::Text,
        strings::ascii_lower(ext) == "tsv"@ ==> extension_format(lowercase_of(ext)) == FileFormat::Tsv,
        strings::ascii_lower(ext) != "txt"@ && strings::ascii_lower(ext) != "log"@
            && strings::ascii_lower(ext) != "ndjson"@ && strings::ascii_lower(ext) != "jsonl"@
            && strings::ascii_lower(ext) != "tsv"@ ==> extension_format(lowercase_of(ext))
            == FileFormat::Csv,
{
    reveal_strlit("txt");
    reveal_strlit("log");
    reveal_strlit("ndjson");
    reveal_strlit("jsonl");
    reveal_strlit("tsv");
    let l = strings::ascii_lower(ext);
    assert(lowercase_of(ext) == l);
    if l == "txt"@ || l == "log"@ || l == "ndjson"@ || l == "jsonl"@ {
        assert(l != "tsv"@) by {
            if l == "tsv"@ {
                assert(l[0] == 't' && l.len() == 3 && l[2] == 'v');
            }
        }
    }
}

/// Which delimiters a split accepts: for TSV always a tab; for any other
/// format every ASCII character, as its own byte, and no other character.
pub proof fn law_delimiters(format: FileFormat, c: char)
    ensures
        format == FileFormat::Tsv ==> delimiter_choice(format, c) == Some(9u8),
        format != FileFormat::Tsv ==> (delimiter_choice(format, c) is Some
            <==> strings::is_ascii_char(c)),
        format != FileFormat::Tsv && delimiter_choice(format, c) is Some ==> delimiter_choice(
            format,
            c,
        )->0 as u32 == c as u32,
{
}

/// A chunk file name reads as its parts: the prefix, then `_part_` after the
/// input's stem or `_` after a given prefix, then the part number in decimal
/// padded with zeros to at least `digits` places, then the suffix.
pub proof fn law_chunk_name_parts(
    prefix: Seq<char>,
    custom_prefix: bool,
    suffix: Seq<char>,
    part: nat,
    digits: nat,
)
    ensures
        ({
            let n = chunk_name(prefix, custom_prefix, suffix, part, digits);
            let sep: Seq<char> = if custom_prefix {
                seq!['_']
            } else {
                seq!['_', 'p', 'a', 'r', 't', '_']
            };
            let z = n.subrange(
                (prefix.len() + sep.len()) as int,
                (n.len() - suffix.len()) as int,
            );
            &&& n.len() >= prefix.len() + sep.len() + suffix.len()
            &&& n.take(prefix.len() as int) == prefix
            &&& n.subrange(prefix.len() as int, (prefix.len() + sep.len()) as int) == sep
            &&& n.skip(n.len() - suffix.len()) == suffix
            &&& strings::all_digits(z)
            &&& strings::digits_value(z) == part
            &&& z.len() >= digits
        }),
{
    reveal_strlit("_");
    reveal_strlit("_part_");
    let d = strings::decimal_digits(part);
    let z = zero_padded(d, digits);
    let sep = name_separator(custom_prefix);
    let n = chunk_name(prefix, custom_prefix, suffix, part, digits);
    strings::lemma_decimal_digits(part);
    lemma_padded_value(part, digits);
    law_padded_width(part, digits);
    assert(n =~= prefix + sep + z + suffix);
    assert(n.take(prefix.len() as int) =~= prefix);
    assert(n.subrange(prefix.len() as int, (prefix.len() + sep.len()) as int) =~= sep);
    assert(n.skip(n.len() - suffix.len()) =~= suffix);
    assert(n.subrange((prefix.len() + sep.len()) as int, (n.len() - suffix.len()) as int) =~= z);
    if d.len() < digits {
        lemma_zeros_value((digits - d.len()) as nat);
        let zs = Seq::new((digits - d.len()) as nat, |i: int| '0');
        assert forall|i: int| 0 <= i < z.len() implies strings::is_digit(#[trigger] z[i]) by {
            if i < zs.len() {
                assert(z[i] == zs[i]);
            } else {
                assert(z[i] == d[i - zs.len()]);
            }
        }
    }
    if custom_prefix {
        assert(sep =~= seq!['_']);
    } else {
        assert(sep =~= seq!['_', 'p', 'a', 'r', 't', '_']);
    }
}

} // verus!
