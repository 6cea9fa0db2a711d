//! What a split reports of its chunks.

use vstd::prelude::*;
use crate::cli::FileFormat;
use crate::splitter::{self, SplitMode};
use crate::strings;

verus! {

/// One chunk file written by a split.
#[derive(Debug, Clone)]
pub struct ChunkInfo {
    /// Its part number, from 1.
    pub part: usize,
    /// The path of its file.
    pub path: String,
    /// Its data rows (a copied header is not counted).
    pub rows: u64,
    /// The bytes of its data rows.
    pub bytes: u64,
    /// `bytes` for people, such as `1.5 MiB`.
    pub bytes_human: String,
}

impl ChunkInfo {
    /// The record of a chunk, with its size written for people.
    pub fn new(part: usize, path: String, rows: u64, bytes: u64) -> (r: ChunkInfo)
        ensures
            r.part == part,
            r.path == path,
            r.rows == rows,
            r.bytes == bytes,
            r.bytes_human@ == crate::format::humansize_binary(bytes),
    {
        let bytes_human = crate::format::format_bytes(bytes);
        ChunkInfo { part, path, rows, bytes, bytes_human }
    }
}

/// The number of rows in the chunks `c`.
pub open spec fn rows_in(c: Seq<ChunkInfo>) -> nat
    decreases c.len(),
{
    if c.len() == 0 {
        0
    } else {
        rows_in(c.drop_last()) + c.last().rows as nat
    }
}

/// The number of rows written to the chunks, or `None` when it does not fit
/// in 64 bits.
pub fn total_rows(chunks: &Vec<ChunkInfo>) -> (r: Option<u64>)
    ensures
        rows_in(chunks@) <= u64::MAX ==> r == Some(rows_in(chunks@) as u64),
        rows_in(chunks@) > u64::MAX ==> r is None,
{
    let mut total: u64 = 0;
    let mut i: usize = 0;
    while i < chunks.len()
        invariant
            i <= chunks.len(),
            total == rows_in(chunks@.take(i as int)),
        decreases chunks.len() - i,
    {
        assert(chunks@.take(i + 1).drop_last() =~= chunks@.take(i as int));
        if total > u64::MAX - chunks[i].rows {
            proof {
                lemma_rows_in_prefix(chunks@, i + 1);
            }
            return None;
        }
        total = total + chunks[i].rows;
        i = i + 1;
    }
    assert(chunks@.take(chunks.len() as int) =~= chunks@);
    Some(total)
}

/// The rows of a prefix of the chunks are no more than those of all of them.
proof fn lemma_rows_in_prefix(c: Seq<ChunkInfo>, i: int)
    requires
        0 <= i <= c.len(),
    ensures
        rows_in(c.take(i)) <= rows_in(c),
    decreases c.len() - i,
{
    if i == c.len() {
        assert(c.take(i) =~= c);
    } else {
        assert(c.take(i + 1).drop_last() =~= c.take(i));
        lemma_rows_in_prefix(c, i + 1);
    }
}

/// What a summary of a split states, except its elapsed time.
pub struct SplitFacts {
    /// The input file, as given.
    pub input_file: String,
    /// The input's size in bytes.
    pub input_size_bytes: u64,
    /// The input's size for people.
    pub input_size_human: String,
    /// The name of the format the input was read in.
    pub format: String,
    /// The description of the split mode.
    pub split_mode: String,
    /// The directory of the chunks.
    pub output_dir: String,
    /// How many chunks were written.
    pub total_chunks: usize,
    /// How many rows were written in all.
    pub total_rows_written: u64,
    /// The chunks, in order.
    pub chunks: Vec<ChunkInfo>,
}

/// The facts of a split's summary: the input, its size (also for people), the
/// format's name, the mode's description, the output directory, the chunks,
/// their count and their total rows. `None` when the total rows do not fit in
/// 64 bits.
pub fn summarize(
    input_file: String,
    input_size_bytes: u64,
    format: &FileFormat,
    mode: &SplitMode,
    output_dir: String,
    chunks: Vec<ChunkInfo>,
) -> (r: Option<SplitFacts>)
    ensures
        r is None <==> rows_in(chunks@) > u64::MAX,
        r matches Some(f) ==> {
            &&& f.input_file == input_file
            &&& f.input_size_bytes == input_size_bytes
            &&& f.input_size_human@ == crate::format::humansize_binary(input_size_bytes)
            &&& f.format@ == splitter::format_title(*format)
            &&& f.split_mode@ == splitter::mode_description(*mode)
            &&& f.output_dir == output_dir
            &&& f.total_chunks == chunks.len()
            &&& f.total_rows_written == rows_in(chunks@)
            &&& f.chunks@ == chunks@
        },
{
    let total = match total_rows(&chunks) {
        Some(t) => t,
        None => return None,
    };
    Some(
        SplitFacts {
            input_file,
            input_size_bytes,
            input_size_human: crate::format::format_bytes(input_size_bytes),
            format: splitter::format_name(format).to_string(),
            split_mode: mode.describe(),
            output_dir,
            total_chunks: chunks.len(),
            total_rows_written: total,
            chunks,
        },
    )
}

/// Which chunks a summary lists, by their places in the list of chunks.
pub struct ChunkListing {
    /// The places listed first.
    pub head: Vec<usize>,
    /// The places listed after the gap, if there is one.
    pub tail: Vec<usize>,
    /// The count printed in the gap, when some chunks are left out.
    pub more: Option<usize>,
}

/// The places `from`, `from + 1`, ... up to but not including `to`.
pub open spec fn places(from: int, to: int) -> Seq<usize> {
    Seq::new((to - from) as nat, |i: int| (from + i) as usize)
}

fn push_places(v: &mut Vec<usize>, from: usize, to: usize)
    requires
        from <= to,
    ensures
        final(v)@ == old(v)@ + places(from as int, to as int),
{
    let ghost start = v@;
    let mut i: usize = from;
    while i < to
        invariant
            from <= i <= to,
            v@ == start + places(from as int, i as int),
        decreases to - i,
    {
        v.push(i);
        i = i + 1;
        assert(v@ =~= start + places(from as int, i as int));
    }
}

/// The chunks that a summary of `count` chunks lists: all of them when there are at
/// most twenty; else the first five, a gap that reports `count - 5` more, and the
/// last five.
pub fn chunk_listing(count: usize) -> (r: ChunkListing)
    ensures
        count <= 20 ==> r.head@ == places(0, count as int) && r.tail@.len() == 0 && r.more
            is None,
        count > 20 ==> r.head@ == places(0, 5) && r.tail@ == places(count - 5, count as int)
            && r.more == Some((count - 5) as usize),
{
    let mut head: Vec<usize> = Vec::new();
    let mut tail: Vec<usize> = Vec::new();
    if count <= 20 {
        push_places(&mut head, 0, count);
        assert(head@ =~= places(0, count as int));
        ChunkListing { head, tail, more: None }
    } else {
        push_places(&mut head, 0, 5);
        push_places(&mut tail, count - 5, count);
        assert(head@ =~= places(0, 5));
        assert(tail@ =~= places(count - 5, count as int));
        ChunkListing { head, tail, more: Some(count - 5) }
    }
}

/// Digits with a comma before every group of three counted from the right.
pub open spec fn grouped(d: Seq<char>) -> Seq<char>
    decreases d.len(),
{
    if d.len() <= 3 {
        d
    } else {
        grouped(d.take(d.len() - 3)) + seq![','] + d.skip(d.len() - 3)
    }
}

/// The first `end` characters of `d`, grouped by threes from the right.
fn group_digits(d: &Vec<char>, end: usize) -> (r: Vec<char>)
    requires
        end <= d.len(),
    ensures
        r@ == grouped(d@.take(end as int)),
    decreases end,
{
    if end <= 3 {
        let mut r: Vec<char> = Vec::new();
        let mut i: usize = 0;
        while i < end
            invariant
                i <= end <= d.len(),
                r@ == d@.take(i as int),
            decreases end - i,
        {
            r.push(d[i]);
            i = i + 1;
            assert(r@ =~= d@.take(i as int));
        }
        r
    } else {
        let mut r = group_digits(d, end - 3);
        r.push(',');
        r.push(d[end - 3]);
        r.push(d[end - 2]);
        r.push(d[end - 1]);
        let ghost t = d@.take(end as int);
        assert(t.take(t.len() - 3) =~= d@.take(end - 3));
        assert(t.skip(t.len() - 3) =~= seq![d@[end - 3], d@[end - 2], d@[end - 1]]);
        assert(r@ =~= grouped(d@.take(end - 3)) + seq![','] + t.skip(t.len() - 3));
        r
    }
}

/// `n` in decimal with commas between groups of three digits, such as `1,234,567`.
pub fn format_number(n: u64) -> (r: String)
    ensures
        r@ == grouped(strings::decimal_digits(n as nat)),
{
    let d = strings::decimal_chars(n);
    let g = group_digits(&d, d.len());
    assert(d@.take(d.len() as int) =~= d@);
    strings::string_from_chars(&g)
}

/// `s` with its commas taken out.
pub open spec fn without_commas(s: Seq<char>) -> Seq<char>
    decreases s.len(),
{
    if s.len() == 0 {
        s
    } else if s.last() == ',' {
        without_commas(s.drop_last())
    } else {
        without_commas(s.drop_last()).push(s.last())
    }
}

proof fn lemma_without_commas_concat(a: Seq<char>, b: Seq<char>)
    ensures
        without_commas(a + b) == without_commas(a) + without_commas(b),
    decreases b.len(),
{
    if b.len() == 0 {
        assert(a + b =~= a);
        assert(without_commas(a) + without_commas(b) =~= without_commas(a));
    } else {
        lemma_without_commas_concat(a, b.drop_last());
        assert((a + b).drop_last() =~= a + b.drop_last());
        if b.last() != ',' {
            assert(without_commas(a) + without_commas(b.drop_last()).push(b.last()) =~= (
            without_commas(a) + without_commas(b.drop_last())).push(b.last()));
        }
    }
}

proof fn lemma_without_commas_digits(d: Seq<char>)
    requires
        strings::all_digits(d),
    ensures
        without_commas(d) == d,
    decreases d.len(),
{
    if d.len() > 0 {
        assert(strings::is_digit(d.last()));
        lemma_without_commas_digits(d.drop_last());
        assert(d.drop_last().push(d.last()) =~= d);
    }
}

proof fn lemma_grouped_keeps_digits(d: Seq<char>)
    requires
        strings::all_digits(d),
    ensures
        without_commas(grouped(d)) == d,
    decreases d.len(),
{
    if d.len() <= 3 {
        lemma_without_commas_digits(d);
    } else {
        let head = d.take(d.len() - 3);
        let tail = d.skip(d.len() - 3);
        lemma_grouped_keeps_digits(head);
        lemma_without_commas_digits(tail);
        lemma_without_commas_concat(grouped(head) + seq![','], tail);
        lemma_without_commas_concat(grouped(head), seq![',']);
        assert(seq![','].drop_last() =~= Seq::<char>::empty());
        assert(without_commas(seq![',']) == without_commas(Seq::<char>::empty()));
        assert(head + tail =~= d);
    }
}

/// Taking the commas out of a formatted number gives its plain decimal digits.
pub proof fn law_format_number_keeps_digits(n: u64)
    ensures
        without_commas(grouped(strings::decimal_digits(n as nat))) == strings::decimal_digits(
            n as nat,
        ),
{
    strings::lemma_decimal_digits(n as nat);
    lemma_grouped_keeps_digits(strings::decimal_digits(n as nat));
}


proof fn lemma_grouped_shape(d: Seq<char>)
    requires
        d.len() >= 1,
        strings::all_digits(d),
    ensures
        grouped(d).len() == d.len() + (d.len() - 1) / 3,
        forall|i: int|
            0 <= i < grouped(d).len() ==> (#[trigger] grouped(d)[i] == ',' <==> (grouped(d).len()
                - i) % 4 == 0),
    decreases d.len(),
{
    if d.len() <= 3 {
        assert forall|i: int| 0 <= i < grouped(d).len() implies (#[trigger] grouped(d)[i] == ','
            <==> (grouped(d).len() - i) % 4 == 0) by {
            assert(strings::is_digit(d[i]));
        }
    } else {
        let head = d.take(d.len() - 3);
        let tail = d.skip(d.len() - 3);
        assert forall|k: int| 0 <= k < head.len() implies strings::is_digit(#[trigger] head[k]) by {
            assert(head[k] == d[k]);
        }
        lemma_grouped_shape(head);
        let g = grouped(head);
        let s = grouped(d);
        assert(s == g + seq![','] + tail);
        assert(s.len() == g.len() + 4);
        assert forall|i: int| 0 <= i < s.len() implies (#[trigger] s[i] == ',' <==> (s.len() - i)
            % 4 == 0) by {
            if i < g.len() {
                assert(s[i] == g[i]);
                assert((s.len() - i) % 4 == (g.len() - i) % 4);
            } else if i == g.len() {
                assert(s[i] == ',');
            } else {
                assert(s[i] == d[d.len() - 3 + (i - g.len() - 1)]);
                assert(strings::is_digit(d[d.len() - 3 + (i - g.len() - 1)]));
            }
        }
    }
}

/// A formatted number reads as groups of digits split by commas: counted from the right,
/// every comma stands four places after the one before it (three digits between), and
/// the first group holds one to three digits. So the text is `d + (d - 1) / 3` characters
/// long, where `d` is the number of decimal digits.
pub proof fn law_format_number_groups(n: u64)
    ensures
        ({
            let d = strings::decimal_digits(n as nat);
            let s = grouped(d);
            &&& s.len() == d.len() + (d.len() - 1) / 3
            &&& forall|i: int| 0 <= i < s.len() ==> (#[trigger] s[i] == ',' <==> (s.len() - i) % 4 == 0)
            &&& s.len() % 4 != 0
        }),
{
    let d = strings::decimal_digits(n as nat);
    strings::lemma_decimal_digits(n as nat);
    lemma_grouped_shape(d);
}

} // verus!
