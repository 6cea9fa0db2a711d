//! Deciding where chunks end: rows are taken in order, and a new chunk is
//! started before a row that would take the current one past its limit.

use vstd::prelude::*;
use crate::splitter::SplitMode;

verus! {

// ─── The model ────────────────────────────────────────────────────────────────

/// A chunk as the model sees it: its part number, its rows and its bytes.
pub struct Tally {
    pub part: nat,
    pub rows: nat,
    pub bytes: nat,
}

/// Where a split stands after some rows: the chunks already closed, and the
/// part number, rows and bytes of the chunk being filled.
pub struct PlanState {
    pub closed: Seq<Tally>,
    pub part: nat,
    pub rows: nat,
    pub bytes: nat,
}

/// Whether a row of `len` bytes starts a new chunk, given the rows and bytes
/// of the current one and the `header` bytes written at the top of every
/// chunk: by size, when the row would take the chunk file past the limit and
/// the chunk already holds a row; by rows, when the chunk is full.
pub open spec fn rolls_over(mode: SplitMode, header: nat, rows: nat, bytes: nat, len: nat) -> bool {
    match mode {
        SplitMode::BySize(max) => header + bytes + len > max && rows > 0,
        SplitMode::ByRows(max) => rows >= max,
    }
}

/// The state after one more row of `len` bytes.
pub open spec fn after_row(mode: SplitMode, header: nat, s: PlanState, len: nat) -> PlanState {
    if rolls_over(mode, header, s.rows, s.bytes, len) {
        PlanState {
            closed: s.closed.push(Tally { part: s.part, rows: s.rows, bytes: s.bytes }),
            part: s.part + 1,
            rows: 1,
            bytes: len,
        }
    } else {
        PlanState { closed: s.closed, part: s.part, rows: s.rows + 1, bytes: s.bytes + len }
    }
}

/// The state after rows of the given byte lengths, starting with an empty part 1.
pub open spec fn plan_after(mode: SplitMode, header: nat, lens: Seq<u64>) -> PlanState
    decreases lens.len(),
{
    if lens.len() == 0 {
        PlanState { closed: Seq::empty(), part: 1, rows: 0, bytes: 0 }
    } else {
        after_row(mode, header, plan_after(mode, header, lens.drop_last()), lens.last() as nat)
    }
}

/// The chunks of a split of rows with the given byte lengths: the closed ones,
/// then the last one if it holds a row.
pub open spec fn plan_chunks(mode: SplitMode, header: nat, lens: Seq<u64>) -> Seq<Tally> {
    let s = plan_after(mode, header, lens);
    if s.rows > 0 {
        s.closed.push(Tally { part: s.part, rows: s.rows, bytes: s.bytes })
    } else {
        s.closed
    }
}

/// The number of rows in `c`.
pub open spec fn rows_total(c: Seq<Tally>) -> nat
    decreases c.len(),
{
    if c.len() == 0 {
        0
    } else {
        rows_total(c.drop_last()) + c.last().rows
    }
}

/// The number of bytes in `c`.
pub open spec fn bytes_total(c: Seq<Tally>) -> nat
    decreases c.len(),
{
    if c.len() == 0 {
        0
    } else {
        bytes_total(c.drop_last()) + c.last().bytes
    }
}

/// The sum of `lens`.
pub open spec fn sum_of(lens: Seq<u64>) -> nat
    decreases lens.len(),
{
    if lens.len() == 0 {
        0
    } else {
        sum_of(lens.drop_last()) + lens.last() as nat
    }
}

/// The index of the first row of chunk `i` of `c`.
pub open spec fn chunk_start(c: Seq<Tally>, i: int) -> nat {
    rows_total(c.take(i))
}

/// Chunk `i` of `c` holds exactly the rows from its start on, in order.
pub open spec fn holds_run(c: Seq<Tally>, lens: Seq<u64>, i: int) -> bool {
    let a = chunk_start(c, i);
    &&& a + c[i].rows <= lens.len()
    &&& c[i].bytes == sum_of(lens.subrange(a as int, (a + c[i].rows) as int))
}

/// What a split by size keeps of its chunks: each holds a row, each is within
/// the limit unless it is a single row, and each closed chunk was closed because
/// the next row would not fit.
pub open spec fn size_invariant(max: u64, header: nat, lens: Seq<u64>, s: PlanState) -> bool {
    let c = s.closed;
    &&& forall|i: int|
        0 <= i < c.len() ==> #[trigger] c[i].rows >= 1 && (header + c[i].bytes <= max || c[i].rows == 1)
    &&& header + s.bytes <= max || s.rows <= 1
    &&& forall|i: int|
        #![trigger c[i]]
        0 <= i < c.len() ==> chunk_start(c, i + 1) < lens.len() && header + c[i].bytes + lens[chunk_start(
            c,
            i + 1,
        ) as int] > max
}

/// What a split by a positive number of rows keeps of its chunks: each closed
/// chunk is full, and the current one is not over the limit.
pub open spec fn rows_invariant(max: u64, s: PlanState) -> bool {
    &&& forall|i: int| 0 <= i < s.closed.len() ==> #[trigger] s.closed[i].rows == max
    &&& s.rows <= max
}

/// What holds of the state after the rows `lens`.
pub open spec fn plan_invariant(mode: SplitMode, header: nat, lens: Seq<u64>, s: PlanState) -> bool {
    let c = s.closed;
    let done = rows_total(c);
    &&& s.part == c.len() + 1
    &&& forall|i: int| 0 <= i < c.len() ==> #[trigger] c[i].part == i + 1
    &&& done + s.rows == lens.len()
    &&& forall|i: int| 0 <= i < c.len() ==> #[trigger] holds_run(c, lens, i)
    &&& s.bytes == sum_of(lens.subrange(done as int, lens.len() as int))
    &&& bytes_total(c) + s.bytes == sum_of(lens)
    &&& lens.len() > 0 ==> s.rows >= 1
    &&& match mode {
        SplitMode::BySize(max) => size_invariant(max, header, lens, s),
        SplitMode::ByRows(max) => max > 0 ==> rows_invariant(max, s),
    }
}

proof fn lemma_take_push(c: Seq<Tally>, t: Tally, i: int)
    requires
        0 <= i <= c.len(),
    ensures
        c.push(t).take(i) == c.take(i),
{
    assert(c.push(t).take(i) =~= c.take(i));
}

proof fn lemma_rows_take_step(c: Seq<Tally>, i: int)
    requires
        0 <= i < c.len(),
    ensures
        rows_total(c.take(i + 1)) == rows_total(c.take(i)) + c[i].rows,
{
    assert(c.take(i + 1).drop_last() =~= c.take(i));
}

proof fn lemma_rows_take_le(c: Seq<Tally>, i: int)
    requires
        0 <= i <= c.len(),
    ensures
        rows_total(c.take(i)) <= rows_total(c),
    decreases c.len() - i,
{
    if i == c.len() {
        assert(c.take(i) =~= c);
    } else {
        lemma_rows_take_step(c, i);
        lemma_rows_take_le(c, i + 1);
    }
}

proof fn lemma_sum_push_range(lens: Seq<u64>, x: u64, a: int)
    requires
        0 <= a <= lens.len(),
    ensures
        sum_of(lens.push(x).subrange(a, lens.len() + 1int)) == sum_of(
            lens.subrange(a, lens.len() as int),
        ) + x,
{
    let r = lens.push(x).subrange(a, lens.len() + 1int);
    assert(r.drop_last() =~= lens.subrange(a, lens.len() as int));
}

proof fn lemma_push_range_inside(lens: Seq<u64>, x: u64, a: int, b: int)
    requires
        0 <= a <= b <= lens.len(),
    ensures
        lens.push(x).subrange(a, b) == lens.subrange(a, b),
{
    assert(lens.push(x).subrange(a, b) =~= lens.subrange(a, b));
}

/// The invariant holds after one more row.
proof fn lemma_after_row(mode: SplitMode, header: nat, lens: Seq<u64>, x: u64)
    requires
        plan_invariant(mode, header, lens, plan_after(mode, header, lens)),
    ensures
        plan_invariant(mode, header, lens.push(x), plan_after(mode, header, lens.push(x))),
{
    let s = plan_after(mode, header, lens);
    let l2 = lens.push(x);
    assert(l2.drop_last() =~= lens);
    let s2 = plan_after(mode, header, l2);
    assert(s2 == after_row(mode, header, s, x as nat));
    let c = s.closed;
    let done = rows_total(c);
    let n = lens.len();
    assert(l2.last() == x);
    assert(sum_of(l2) == sum_of(lens) + x);
    if c.len() > 0 {
        assert(n > 0);
    }
    if rolls_over(mode, header, s.rows, s.bytes, x as nat) {
        let t = Tally { part: s.part, rows: s.rows, bytes: s.bytes };
        let c2 = c.push(t);
        assert(s2.closed == c2);
        assert(c2.drop_last() =~= c);
        assert(rows_total(c2) == done + s.rows);
        assert(bytes_total(c2) == bytes_total(c) + s.bytes);
        assert(c2.take(c.len() as int) =~= c);
        assert forall|i: int| 0 <= i < c2.len() implies #[trigger] c2[i].part == i + 1 by {
            if i < c.len() {
                assert(c2[i] == c[i]);
            }
        }
        assert forall|i: int| 0 <= i < c2.len() implies #[trigger] holds_run(c2, l2, i) by {
            lemma_take_push(c, t, i);
            if i < c.len() {
                assert(c2[i] == c[i]);
                assert(c[i].part == i + 1 && holds_run(c, lens, i));
                lemma_push_range_inside(
                    lens,
                    x,
                    chunk_start(c, i) as int,
                    (chunk_start(c, i) + c[i].rows) as int,
                );
            } else {
                lemma_push_range_inside(lens, x, done as int, n as int);
            }
        }
        assert(l2.subrange(n as int, n + 1int) =~= seq![x]);
        assert(seq![x].drop_last() =~= Seq::<u64>::empty());
        assert(sum_of(seq![x].drop_last()) == 0);
        assert(sum_of(seq![x]) == x);
        match mode {
            SplitMode::BySize(max) => {
                assert(size_invariant(max, header, lens, s));
                assert forall|i: int|
                    #![trigger c2[i]]
                    0 <= i < c2.len() implies chunk_start(c2, i + 1) < l2.len() && header + c2[i].bytes
                    + l2[chunk_start(c2, i + 1) as int] > max by {
                    if i < c.len() {
                        lemma_take_push(c, t, i + 1);
                        assert(c2[i] == c[i]);
                        assert(chunk_start(c, i + 1) < lens.len() && header + c[i].bytes + lens[chunk_start(
                            c,
                            i + 1,
                        ) as int] > max);
                    } else {
                        assert(c2.take(i + 1) =~= c2);
                        assert(chunk_start(c2, i + 1) == n);
                    }
                }
                assert forall|i: int| 0 <= i < c2.len() implies #[trigger] c2[i].rows >= 1 && (
                header + c2[i].bytes <= max || c2[i].rows == 1) by {
                    if i < c.len() {
                        assert(c2[i] == c[i]);
                    }
                }
                assert(size_invariant(max, header, l2, s2));
            },
            SplitMode::ByRows(max) => {
                if max > 0 {
                    assert forall|i: int| 0 <= i < c2.len() implies #[trigger] c2[i].rows
                        == max by {
                        if i < c.len() {
                            assert(c2[i] == c[i]);
                        }
                    }
                }
            },
        }
    } else {
        assert(s2.closed == c);
        assert forall|i: int| 0 <= i < c.len() implies #[trigger] holds_run(c, l2, i) by {
            assert(c[i].part == i + 1 && holds_run(c, lens, i));
            lemma_rows_take_step(c, i);
            lemma_rows_take_le(c, i + 1);
            lemma_push_range_inside(
                lens,
                x,
                chunk_start(c, i) as int,
                (chunk_start(c, i) + c[i].rows) as int,
            );
        }
        lemma_sum_push_range(lens, x, done as int);
        match mode {
            SplitMode::BySize(max) => {
                assert(size_invariant(max, header, lens, s));
                assert forall|i: int|
                    #![trigger c[i]]
                    0 <= i < c.len() implies chunk_start(c, i + 1) < l2.len() && header + c[i].bytes
                    + l2[chunk_start(c, i + 1) as int] > max by {
                    assert(chunk_start(c, i + 1) < lens.len() && header + c[i].bytes + lens[chunk_start(
                        c,
                        i + 1,
                    ) as int] > max);
                }
                assert(size_invariant(max, header, l2, s2));
            },
            SplitMode::ByRows(max) => {},
        }
    }
}

/// The invariant holds after any rows.
pub proof fn lemma_plan_invariant(mode: SplitMode, header: nat, lens: Seq<u64>)
    ensures
        plan_invariant(mode, header, lens, plan_after(mode, header, lens)),
    decreases lens.len(),
{
    if lens.len() == 0 {
        assert(lens.subrange(0, 0) =~= Seq::<u64>::empty());
    } else {
        let prev = lens.drop_last();
        lemma_plan_invariant(mode, header, prev);
        lemma_after_row(mode, header, prev, lens.last());
        assert(prev.push(lens.last()) =~= lens);
    }
}

// ─── Laws ─────────────────────────────────────────────────────────────────────

/// The chunks of a split, with the last one added when it holds a row.
proof fn lemma_chunks_from_state(mode: SplitMode, header: nat, lens: Seq<u64>)
    ensures
        ({
            let s = plan_after(mode, header, lens);
            let c = plan_chunks(mode, header, lens);
            &&& plan_invariant(mode, header, lens, s)
            &&& s.rows > 0 ==> c.len() == s.closed.len() + 1 && c.drop_last() == s.closed
                && c.last() == (Tally { part: s.part, rows: s.rows, bytes: s.bytes })
            &&& s.rows == 0 ==> c == s.closed
        }),
{
    lemma_plan_invariant(mode, header, lens);
    let s = plan_after(mode, header, lens);
    if s.rows > 0 {
        let t = Tally { part: s.part, rows: s.rows, bytes: s.bytes };
        assert(s.closed.push(t).drop_last() =~= s.closed);
    }
}

/// No row is lost or added: the chunks hold as many rows and bytes as the
/// input, and there are chunks exactly when there are rows.
pub proof fn law_rows_and_bytes_conserved(mode: SplitMode, header: nat, lens: Seq<u64>)
    ensures
        rows_total(plan_chunks(mode, header, lens)) == lens.len(),
        bytes_total(plan_chunks(mode, header, lens)) == sum_of(lens),
        plan_chunks(mode, header, lens).len() == 0 <==> lens.len() == 0,
{
    lemma_chunks_from_state(mode, header, lens);
    let s = plan_after(mode, header, lens);
    if s.rows == 0 && s.closed.len() > 0 {
        assert(lens.len() > 0);
    }
}

/// Chunks are numbered 1, 2, ... in order, and chunk `i` holds the run of
/// consecutive rows that starts where chunk `i - 1` ended: no row is split,
/// reordered or shared between chunks.
pub proof fn law_chunks_are_consecutive_runs(mode: SplitMode, header: nat, lens: Seq<u64>)
    ensures
        forall|i: int|
            0 <= i < plan_chunks(mode, header, lens).len() ==> #[trigger] plan_chunks(mode, header, lens)[i].part
                == i + 1 && holds_run(plan_chunks(mode, header, lens), lens, i),
{
    lemma_chunks_from_state(mode, header, lens);
    let s = plan_after(mode, header, lens);
    let c = plan_chunks(mode, header, lens);
    if s.rows > 0 {
        let t = Tally { part: s.part, rows: s.rows, bytes: s.bytes };
        assert forall|i: int| 0 <= i < c.len() implies #[trigger] c[i].part == i + 1 && holds_run(
            c,
            lens,
            i,
        ) by {
            lemma_take_push(s.closed, t, i);
            if i < s.closed.len() {
                assert(c[i] == s.closed[i]);
                assert(holds_run(s.closed, lens, i));
            } else {
                assert(s.closed.take(i) =~= s.closed);
            }
        }
    } else {
        assert forall|i: int| 0 <= i < c.len() implies #[trigger] c[i].part == i + 1 && holds_run(
            c,
            lens,
            i,
        ) by {
            assert(holds_run(s.closed, lens, i));
        }
    }
}

/// Split by a positive number of rows `max`, every chunk holds between 1 and
/// `max` rows, and every chunk but the last holds exactly `max`.
pub proof fn law_row_limit(max: u64, header: nat, lens: Seq<u64>)
    requires
        max > 0,
    ensures
        forall|i: int|
            0 <= i < plan_chunks(SplitMode::ByRows(max), header, lens).len() ==> 1 <= #[trigger] plan_chunks(
                SplitMode::ByRows(max), header,
                lens,
            )[i].rows <= max,
        forall|i: int|
            0 <= i < plan_chunks(SplitMode::ByRows(max), header, lens).len() - 1 ==> #[trigger] plan_chunks(
                SplitMode::ByRows(max), header,
                lens,
            )[i].rows == max,
{
    let mode = SplitMode::ByRows(max);
    lemma_chunks_from_state(mode, header, lens);
    let s = plan_after(mode, header, lens);
    let c = plan_chunks(mode, header, lens);
    assert(rows_invariant(max, s));
    assert forall|i: int| 0 <= i < c.len() implies 1 <= #[trigger] c[i].rows <= max by {
        if i < s.closed.len() {
            assert(c[i] == s.closed[i]);
            assert(s.closed[i].rows == max);
        }
    }
    assert forall|i: int| 0 <= i < c.len() - 1 implies #[trigger] c[i].rows == max by {
        if i < s.closed.len() {
            assert(c[i] == s.closed[i]);
            assert(s.closed[i].rows == max);
        }
    }
}

proof fn lemma_rows_total_uniform(c: Seq<Tally>, max: nat)
    requires
        forall|i: int| 0 <= i < c.len() ==> #[trigger] c[i].rows == max,
    ensures
        rows_total(c) == c.len() * max,
    decreases c.len(),
{
    if c.len() > 0 {
        let d = c.drop_last();
        assert forall|i: int| 0 <= i < d.len() implies #[trigger] d[i].rows == max by {
            assert(d[i] == c[i]);
        }
        lemma_rows_total_uniform(d, max);
        assert(c.last() == c[c.len() - 1]);
        assert(d.len() * max + max == c.len() * max) by (nonlinear_arith)
            requires
                d.len() + 1 == c.len(),
        ;
    }
}

/// Split by a positive number of rows `max`, `n` rows make `n / max` chunks,
/// rounded up.
pub proof fn law_row_chunk_count(max: u64, header: nat, lens: Seq<u64>)
    requires
        max > 0,
    ensures
        plan_chunks(SplitMode::ByRows(max), header, lens).len() == (lens.len() + max - 1) / (max as int),
{
    let mode = SplitMode::ByRows(max);
    lemma_chunks_from_state(mode, header, lens);
    law_row_limit(max, header, lens);
    law_rows_and_bytes_conserved(mode, header, lens);
    let c = plan_chunks(mode, header, lens);
    let n = lens.len() as int;
    let m = max as int;
    if c.len() == 0 {
        assert((n + m - 1) / m == 0) by (nonlinear_arith)
            requires
                n == 0,
                m > 0,
        ;
    } else {
        let d = c.drop_last();
        assert forall|i: int| 0 <= i < d.len() implies #[trigger] d[i].rows == max by {
            assert(d[i] == c[i]);
        }
        lemma_rows_total_uniform(d, max as nat);
        let r = c.last().rows as int;
        assert(1 <= c[c.len() - 1].rows <= max);
        let k = c.len() as int;
        assert(n == (k - 1) * m + r);
        assert((n + m - 1) / m == k) by (nonlinear_arith)
            requires
                n == (k - 1) * m + r,
                1 <= r <= m,
                m > 0,
        ;
    }
}

/// Split by size `max`, every chunk holds a row, and every chunk file (its
/// header and its rows) is within `max` bytes unless it holds a single row
/// too large for that.
pub proof fn law_size_limit(max: u64, header: nat, lens: Seq<u64>)
    ensures
        forall|i: int|
            0 <= i < plan_chunks(SplitMode::BySize(max), header, lens).len() ==> #[trigger] plan_chunks(
                SplitMode::BySize(max), header,
                lens,
            )[i].rows >= 1 && (header + plan_chunks(SplitMode::BySize(max), header, lens)[i].bytes <= max
                || plan_chunks(SplitMode::BySize(max), header, lens)[i].rows == 1),
{
    let mode = SplitMode::BySize(max);
    lemma_chunks_from_state(mode, header, lens);
    let s = plan_after(mode, header, lens);
    let c = plan_chunks(mode, header, lens);
    assert(size_invariant(max, header, lens, s));
    assert forall|i: int| 0 <= i < c.len() implies #[trigger] c[i].rows >= 1 && (header + c[i].bytes <= max
        || c[i].rows == 1) by {
        if i < s.closed.len() {
            assert(c[i] == s.closed[i]);
            assert(s.closed[i].rows >= 1 && (header + s.closed[i].bytes <= max || s.closed[i].rows == 1));
        }
    }
}

/// Split by size `max`, a chunk is closed only when the row after it would
/// take its file past `max`: for every chunk but the last, its header and rows
/// together with the first row of the next chunk exceed the limit.
pub proof fn law_size_greedy(max: u64, header: nat, lens: Seq<u64>)
    ensures
        forall|i: int|
            #![trigger plan_chunks(SplitMode::BySize(max), header, lens)[i]]
            0 <= i < plan_chunks(SplitMode::BySize(max), header, lens).len() - 1 ==> chunk_start(
                plan_chunks(SplitMode::BySize(max), header, lens),
                i + 1,
            ) < lens.len() && header + plan_chunks(SplitMode::BySize(max), header, lens)[i].bytes + lens[chunk_start(
                plan_chunks(SplitMode::BySize(max), header, lens),
                i + 1,
            ) as int] > max,
{
    let mode = SplitMode::BySize(max);
    lemma_chunks_from_state(mode, header, lens);
    let s = plan_after(mode, header, lens);
    let c = plan_chunks(mode, header, lens);
    assert(size_invariant(max, header, lens, s));
    assert forall|i: int|
        #![trigger c[i]]
        0 <= i < c.len() - 1 implies chunk_start(c, i + 1) < lens.len() && header + c[i].bytes
        + lens[chunk_start(c, i + 1) as int] > max by {
        assert(i < s.closed.len());
        assert(c[i] == s.closed[i]);
        if s.rows > 0 {
            let t = Tally { part: s.part, rows: s.rows, bytes: s.bytes };
            lemma_take_push(s.closed, t, i + 1);
        }
        assert(chunk_start(s.closed, i + 1) < lens.len() && header + s.closed[i].bytes + lens[chunk_start(
            s.closed,
            i + 1,
        ) as int] > max);
    }
}

/// The bytes of rows written one after another.
pub open spec fn joined_rows(rows: Seq<Seq<u8>>) -> Seq<u8>
    decreases rows.len(),
{
    if rows.len() == 0 {
        Seq::empty()
    } else {
        joined_rows(rows.drop_last()) + rows.last()
    }
}

/// The rows of chunk `i` of `c`: the run of `rows` that it holds.
pub open spec fn chunk_rows<T>(c: Seq<Tally>, rows: Seq<T>, i: int) -> Seq<T> {
    rows.subrange(chunk_start(c, i) as int, (chunk_start(c, i) + c[i].rows) as int)
}

/// The data bytes of the first `n` chunks of `c`, one chunk after another.
pub open spec fn chunks_data(c: Seq<Tally>, rows: Seq<Seq<u8>>, n: nat) -> Seq<u8>
    decreases n,
{
    if n == 0 {
        Seq::empty()
    } else {
        chunks_data(c, rows, (n - 1) as nat) + joined_rows(chunk_rows(c, rows, n - 1))
    }
}

/// Rows written after rows are the two writings one after the other.
pub proof fn lemma_joined_rows_concat(a: Seq<Seq<u8>>, b: Seq<Seq<u8>>)
    ensures
        joined_rows(a + b) == joined_rows(a) + joined_rows(b),
    decreases b.len(),
{
    if b.len() == 0 {
        assert(a + b =~= a);
        assert(joined_rows(a) + joined_rows(b) =~= joined_rows(a));
    } else {
        lemma_joined_rows_concat(a, b.drop_last());
        assert((a + b).drop_last() =~= a + b.drop_last());
        assert((a + b).last() == b.last());
        assert(joined_rows(a) + (joined_rows(b.drop_last()) + b.last()) =~= (joined_rows(a)
            + joined_rows(b.drop_last())) + b.last());
    }
}

proof fn lemma_joined_rows_len(rows: Seq<Seq<u8>>, lens: Seq<u64>)
    requires
        rows.len() == lens.len(),
        forall|j: int| 0 <= j < rows.len() ==> #[trigger] rows[j].len() == lens[j],
    ensures
        joined_rows(rows).len() == sum_of(lens),
    decreases rows.len(),
{
    if rows.len() > 0 {
        lemma_joined_rows_len(rows.drop_last(), lens.drop_last());
    }
}

proof fn lemma_chunks_data_prefix(c: Seq<Tally>, rows: Seq<Seq<u8>>, n: nat)
    requires
        n <= c.len(),
        rows_total(c) == rows.len(),
    ensures
        chunk_start(c, n as int) <= rows.len(),
        chunks_data(c, rows, n) == joined_rows(rows.take(chunk_start(c, n as int) as int)),
    decreases n,
{
    lemma_rows_take_le(c, n as int);
    if n == 0 {
        assert(c.take(0) =~= Seq::<Tally>::empty());
        assert(rows.take(0) =~= Seq::<Seq<u8>>::empty());
    } else {
        let k = (n - 1) as nat;
        lemma_chunks_data_prefix(c, rows, k);
        lemma_rows_take_step(c, k as int);
        let a = chunk_start(c, k as int);
        let b = chunk_start(c, n as int);
        lemma_joined_rows_concat(rows.take(a as int), rows.subrange(a as int, b as int));
        assert(rows.take(a as int) + rows.subrange(a as int, b as int) =~= rows.take(b as int));
    }
}

/// The rows of the first `n` chunks of `c`, one chunk after another.
pub open spec fn chunks_rows<T>(c: Seq<Tally>, rows: Seq<T>, n: nat) -> Seq<T>
    decreases n,
{
    if n == 0 {
        Seq::empty()
    } else {
        chunks_rows(c, rows, (n - 1) as nat) + chunk_rows(c, rows, n - 1)
    }
}

proof fn lemma_chunks_rows_prefix<T>(c: Seq<Tally>, rows: Seq<T>, n: nat)
    requires
        n <= c.len(),
        rows_total(c) == rows.len(),
    ensures
        chunk_start(c, n as int) <= rows.len(),
        chunks_rows(c, rows, n) == rows.take(chunk_start(c, n as int) as int),
    decreases n,
{
    lemma_rows_take_le(c, n as int);
    if n == 0 {
        assert(c.take(0) =~= Seq::<Tally>::empty());
        assert(rows.take(0) =~= Seq::<T>::empty());
    } else {
        let k = (n - 1) as nat;
        lemma_chunks_rows_prefix(c, rows, k);
        lemma_rows_take_step(c, k as int);
        let a = chunk_start(c, k as int);
        let b = chunk_start(c, n as int);
        assert(rows.take(a as int) + rows.subrange(a as int, b as int) =~= rows.take(b as int));
    }
}

/// The chunks of a split, taken one after another, hold exactly the rows in
/// their order, whatever the rows are.
pub proof fn law_chunks_keep_row_order<T>(mode: SplitMode, header: nat, lens: Seq<u64>, rows: Seq<T>)
    requires
        rows.len() == lens.len(),
    ensures
        chunks_rows(plan_chunks(mode, header, lens), rows, plan_chunks(mode, header, lens).len())
            == rows,
{
    let c = plan_chunks(mode, header, lens);
    law_rows_and_bytes_conserved(mode, header, lens);
    lemma_chunks_rows_prefix(c, rows, c.len());
    assert(c.take(c.len() as int) =~= c);
    assert(rows.take(rows.len() as int) =~= rows);
}

/// The chunks of a split hold all the rows, in order: writing each chunk's
/// rows one after another, chunk after chunk, gives back exactly the rows
/// written one after another; and each chunk's byte count is the length of
/// its rows, when `lens` are the rows' lengths.
pub proof fn law_chunks_rebuild_rows(mode: SplitMode, header: nat, lens: Seq<u64>, rows: Seq<Seq<u8>>)
    requires
        rows.len() == lens.len(),
        forall|j: int| 0 <= j < rows.len() ==> #[trigger] rows[j].len() == lens[j],
    ensures
        chunks_data(
            plan_chunks(mode, header, lens),
            rows,
            plan_chunks(mode, header, lens).len(),
        ) == joined_rows(rows),
        forall|i: int|
            0 <= i < plan_chunks(mode, header, lens).len() ==> joined_rows(
                #[trigger] chunk_rows(plan_chunks(mode, header, lens), rows, i),
            ).len() == plan_chunks(mode, header, lens)[i].bytes,
{
    let c = plan_chunks(mode, header, lens);
    law_rows_and_bytes_conserved(mode, header, lens);
    lemma_chunks_data_prefix(c, rows, c.len());
    assert(c.take(c.len() as int) =~= c);
    assert(rows.take(rows.len() as int) =~= rows);
    assert forall|i: int| 0 <= i < c.len() implies joined_rows(#[trigger] chunk_rows(c, rows, i)).len()
        == c[i].bytes by {
        law_chunks_are_consecutive_runs(mode, header, lens);
        assert(plan_chunks(mode, header, lens)[i].part == i + 1);
        assert(holds_run(c, lens, i));
        let a = chunk_start(c, i) as int;
        let b = a + c[i].rows;
        let rs = rows.subrange(a, b);
        let ls = lens.subrange(a, b);
        assert forall|j: int| 0 <= j < rs.len() implies #[trigger] rs[j].len() == ls[j] by {
            assert(rs[j] == rows[a + j]);
        }
        lemma_joined_rows_len(rs, ls);
    }
}

// ─── The planner ──────────────────────────────────────────────────────────────

/// A finished chunk: its part number, data rows and bytes of rows.
#[derive(Debug, Clone, Copy)]
pub struct ChunkTally {
    pub part: usize,
    pub rows: u64,
    pub bytes: u64,
}

impl View for ChunkTally {
    type V = Tally;

    open spec fn view(&self) -> Tally {
        Tally { part: self.part as nat, rows: self.rows as nat, bytes: self.bytes as nat }
    }
}

/// The model of a list of finished chunks.
pub open spec fn tallies_view(v: Seq<ChunkTally>) -> Seq<Tally> {
    v.map_values(|t: ChunkTally| t@)
}

/// Whether a row of `len` bytes can be taken without a counter overflowing:
/// the size check, the part number of a new chunk, and the rows and bytes of
/// the current one.
pub open spec fn takes_row(mode: SplitMode, header: nat, s: PlanState, len: nat) -> bool {
    &&& (mode is BySize ==> s.bytes + len <= u64::MAX)
    &&& if rolls_over(mode, header, s.rows, s.bytes, len) {
        s.part < usize::MAX
    } else {
        s.rows < u64::MAX && s.bytes + len <= u64::MAX
    }
}

/// Decides, row by row, where chunks end.
pub struct ChunkPlanner {
    mode: SplitMode,
    header: u64,
    part: usize,
    rows: u64,
    bytes: u64,
    closed: Vec<ChunkTally>,
    fed: Ghost<Seq<u64>>,
}

impl ChunkPlanner {
    /// The limit of the chunks.
    pub closed spec fn mode(&self) -> SplitMode {
        self.mode
    }

    /// The bytes written at the top of every chunk before its rows.
    pub closed spec fn header(&self) -> nat {
        self.header as nat
    }

    /// The byte lengths of the rows taken so far, in order.
    pub closed spec fn rows_taken(&self) -> Seq<u64> {
        self.fed@
    }

    /// The planner's counters agree with the model of the rows taken so far.
    pub closed spec fn wf(&self) -> bool {
        let s = plan_after(self.mode, self.header as nat, self.fed@);
        &&& self.part as nat == s.part
        &&& self.rows as nat == s.rows
        &&& self.bytes as nat == s.bytes
        &&& tallies_view(self.closed@) == s.closed
    }

    /// A planner that has taken no row; its first chunk is part 1. Each chunk
    /// file starts with `header` bytes, which count against a size limit.
    pub fn new(mode: SplitMode, header: u64) -> (r: ChunkPlanner)
        ensures
            r.wf(),
            r.mode() == mode,
            r.header() == header,
            r.rows_taken() == Seq::<u64>::empty(),
    {
        let r = ChunkPlanner {
            mode,
            header,
            part: 1,
            rows: 0,
            bytes: 0,
            closed: Vec::new(),
            fed: Ghost(Seq::empty()),
        };
        assert(tallies_view(r.closed@) =~= Seq::<Tally>::empty());
        r
    }

    /// The part number of the chunk being filled.
    pub fn current_part(&self) -> (r: usize)
        requires
            self.wf(),
        ensures
            r == plan_after(self.mode(), self.header(), self.rows_taken()).part,
    {
        self.part
    }

    /// Whether a row of `len` bytes would start a new chunk.
    pub fn starts_new_chunk(&self, len: u64) -> (r: bool)
        requires
            self.wf(),
        ensures
            r == rolls_over(
                self.mode(),
                self.header(),
                plan_after(self.mode(), self.header(), self.rows_taken()).rows,
                plan_after(self.mode(), self.header(), self.rows_taken()).bytes,
                len as nat,
            ),
    {
        match self.mode {
            SplitMode::BySize(max) => (self.header as u128) + (self.bytes as u128) + (len as u128) > (max as u128)
                && self.rows > 0,
            SplitMode::ByRows(max) => self.rows >= max,
        }
    }

    /// Whether a row of `len` bytes can be taken without a counter overflowing.
    pub fn can_take(&self, len: u64) -> (r: bool)
        requires
            self.wf(),
        ensures
            r == takes_row(self.mode(), self.header(), plan_after(self.mode(), self.header(), self.rows_taken()), len as nat),
    {
        let fits = (self.bytes as u128) + (len as u128) <= (u64::MAX as u128);
        let size_ok = match self.mode {
            SplitMode::BySize(_) => fits,
            SplitMode::ByRows(_) => true,
        };
        if self.starts_new_chunk(len) {
            size_ok && self.part < usize::MAX
        } else {
            size_ok && self.rows < u64::MAX && fits
        }
    }

    /// Takes a row of `len` bytes. When the current chunk cannot hold it, the
    /// chunk is closed and the row starts the next part; the result says
    /// whether that happened.
    pub fn push_row(&mut self, len: u64) -> (started: bool)
        requires
            old(self).wf(),
            takes_row(old(self).mode(), old(self).header(), plan_after(old(self).mode(), old(self).header(), old(self).rows_taken()), len as nat),
        ensures
            final(self).wf(),
            final(self).mode() == old(self).mode(),
            final(self).header() == old(self).header(),
            final(self).rows_taken() == old(self).rows_taken().push(len),
            started == rolls_over(
                old(self).mode(),
                old(self).header(),
                plan_after(old(self).mode(), old(self).header(), old(self).rows_taken()).rows,
                plan_after(old(self).mode(), old(self).header(), old(self).rows_taken()).bytes,
                len as nat,
            ),
    {
        let ghost prev = self.fed@;
        let started = self.starts_new_chunk(len);
        if started {
            let t = ChunkTally { part: self.part, rows: self.rows, bytes: self.bytes };
            self.closed.push(t);
            self.part = self.part + 1;
            self.rows = 1;
            self.bytes = len;
        } else {
            self.rows = self.rows + 1;
            self.bytes = self.bytes + len;
        }
        self.fed = Ghost(prev.push(len));
        proof {
            assert(self.fed@.drop_last() =~= prev);
            let s = plan_after(self.mode, self.header as nat, prev);
            if started {
                assert(tallies_view(self.closed@) =~= s.closed.push(
                    Tally { part: s.part, rows: s.rows, bytes: s.bytes },
                ));
            } else {
                assert(tallies_view(self.closed@) =~= s.closed);
            }
        }
        started
    }

    /// The chunk closed most recently, if any.
    pub fn last_closed(&self) -> (r: Option<ChunkTally>)
        requires
            self.wf(),
        ensures
            ({
                let c = plan_after(self.mode(), self.header(), self.rows_taken()).closed;
                &&& r is None <==> c.len() == 0
                &&& r matches Some(t) ==> t@ == c.last()
            }),
    {
        let n = self.closed.len();
        if n == 0 {
            None
        } else {
            assert(tallies_view(self.closed@)[n - 1] == self.closed@[n - 1]@);
            Some(self.closed[n - 1])
        }
    }

    /// Ends the split: the chunks, and whether the chunk being filled holds no
    /// row (so that its file is to be removed).
    pub fn finish(self) -> (r: (Vec<ChunkTally>, bool))
        requires
            self.wf(),
        ensures
            tallies_view(r.0@) == plan_chunks(self.mode(), self.header(), self.rows_taken()),
            r.1 == (plan_after(self.mode(), self.header(), self.rows_taken()).rows == 0),
    {
        let mut chunks = self.closed;
        let empty = self.rows == 0;
        if !empty {
            let ghost before = chunks@;
            chunks.push(ChunkTally { part: self.part, rows: self.rows, bytes: self.bytes });
            assert(tallies_view(chunks@) =~= tallies_view(before).push(
                Tally { part: self.part as nat, rows: self.rows as nat, bytes: self.bytes as nat },
            ));
        }
        (chunks, empty)
    }
}

} // verus!
