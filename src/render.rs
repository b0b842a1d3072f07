//! The report: a pipe-delimited table with one row per compressor of the first
//! benchmark and, per benchmark, its pack time, byte count and unpack time.
use vstd::prelude::*;
use crate::aggregate::{Benchmark, BenchmarkModel};
use crate::registry::{text_opt, Compression, EntryModel};
use crate::text::starts_with;

verus! {

pub open spec fn digit_char(d: nat) -> char {
    seq!['0', '1', '2', '3', '4', '5', '6', '7', '8', '9'][d as int]
}

/// The decimal digits of `n`.
pub open spec fn decimal(n: nat) -> Seq<char>
    decreases n,
{
    if n < 10 {
        seq![digit_char(n)]
    } else {
        decimal(n / 10).push(digit_char(n % 10))
    }
}

pub open spec fn three_digits(n: nat) -> Seq<char> {
    seq![digit_char(n / 100), digit_char((n / 10) % 10), digit_char(n % 10)]
}

/// `n` in decimal with its digits grouped in threes by `.`: `1.234.567`.
pub open spec fn grouped(n: nat) -> Seq<char>
    decreases n,
{
    if n < 1000 {
        decimal(n)
    } else {
        grouped(n / 1000) + seq!['.'] + three_digits(n % 1000)
    }
}

/// Relies on num_format's `to_formatted_string` with `Locale::eu`, whose
/// separator is `.` and whose grouping is the standard one (groups of three).
#[verifier::external_body]
fn grouped_string(n: u64) -> (r: String)
    ensures
        r@ == grouped(n as nat),
{
    num_format::ToFormattedString::to_formatted_string(&n, &num_format::Locale::eu)
}

/// A time, or the placeholder `—` where none was recorded.
pub open spec fn time_cell(t: Option<Seq<char>>) -> Seq<char> {
    match t {
        Some(s) => s,
        None => "—"@,
    }
}

/// A byte count, zero where none was recorded.
pub open spec fn bytes_cell(b: Option<u64>) -> Seq<char> {
    match b {
        Some(n) => grouped(n as nat),
        None => grouped(0),
    }
}

/// One benchmark's three cells for an entry.
pub open spec fn group_cells(e: EntryModel) -> Seq<char> {
    "|"@ + time_cell(e.time_pack) + "|"@ + bytes_cell(e.bytes) + " b|"@ + time_cell(e.time_unpack)
}

/// The cells of every benchmark for the entry at index `i`.
pub open spec fn row_groups(bs: Seq<BenchmarkModel>, i: int) -> Seq<char>
    decreases bs.len(),
{
    if bs.len() == 0 {
        seq![]
    } else {
        row_groups(bs.drop_last(), i) + group_cells(bs.last().entries[i])
    }
}

/// The row of the entry at index `i`, labelled by the first benchmark.
pub open spec fn row(bs: Seq<BenchmarkModel>, i: int) -> Seq<char> {
    "|"@ + bs[0].entries[i].compressor + row_groups(bs, i) + "|\n"@
}

/// The rows of the first `k` entries.
pub open spec fn body(bs: Seq<BenchmarkModel>, k: int) -> Seq<char>
    decreases k,
{
    if k <= 0 {
        seq![]
    } else {
        body(bs, k - 1) + row(bs, k - 1)
    }
}

pub open spec fn header_names(bs: Seq<BenchmarkModel>) -> Seq<char>
    decreases bs.len(),
{
    if bs.len() == 0 {
        seq![]
    } else if bs.len() == 1 {
        bs[0].name + " ↘|bytes|↗"@
    } else {
        header_names(bs.drop_last()) + "|"@ + bs.last().name + " ↘|bytes|↗"@
    }
}

pub open spec fn header_row(bs: Seq<BenchmarkModel>) -> Seq<char> {
    "|benchmarks|"@ + header_names(bs) + "|\n"@
}

/// Every benchmark has an entry at each index of the first one.
pub open spec fn aligned(bs: Seq<BenchmarkModel>) -> bool {
    forall|j: int| 0 <= j < bs.len() ==> bs[0].entries.len() <= (#[trigger] bs[j]).entries.len()
}

/// The whole table; `None` when some benchmark has fewer entries than the first.
pub open spec fn table(bs: Seq<BenchmarkModel>) -> Option<Seq<char>> {
    if bs.len() == 0 {
        Some(header_row(bs))
    } else if aligned(bs) {
        Some(header_row(bs) + body(bs, bs[0].entries.len() as int))
    } else {
        None
    }
}

proof fn lemma_row_groups_open(bs: Seq<BenchmarkModel>, i: int)
    requires
        bs.len() > 0,
    ensures
        row_groups(bs, i).len() > 0,
        row_groups(bs, i)[0] == '|',
    decreases bs.len(),
{
    reveal_strlit("|");
    let last = group_cells(bs.last().entries[i]);
    assert(last[0] == '|');
    if bs.len() > 1 {
        lemma_row_groups_open(bs.drop_last(), i);
    } else {
        assert(row_groups(bs.drop_last(), i) =~= seq![]);
    }
}

/// The rows follow the first benchmark's entries in their insertion order:
/// the table is the header followed by one row per entry of the first
/// benchmark, row `i` right after row `i - 1`, and row `i` opens with the name
/// of the first benchmark's `i`-th entry, whatever the other benchmarks hold.
pub proof fn lemma_rows_follow_first(bs: Seq<BenchmarkModel>, i: int)
    requires
        bs.len() > 0,
        aligned(bs),
        0 <= i < bs[0].entries.len(),
    ensures
        table(bs) == Some(header_row(bs) + body(bs, bs[0].entries.len() as int)),
        body(bs, i + 1) == body(bs, i) + row(bs, i),
        starts_with(row(bs, i), "|"@ + bs[0].entries[i].compressor + "|"@),
{
    reveal_strlit("|");
    lemma_row_groups_open(bs, i);
    let label = "|"@ + bs[0].entries[i].compressor + "|"@;
    assert(row(bs, i).subrange(0, label.len() as int) =~= label);
}

/// Missing measurements are no error: an entry without a byte count shows
/// `0`, one without a pack or unpack time shows the placeholder `—` there.
pub proof fn lemma_absent_cells(e: EntryModel)
    ensures
        e.bytes is None ==> bytes_cell(e.bytes) == seq!['0'],
        e.time_pack is None ==> time_cell(e.time_pack) == "—"@,
        e.time_unpack is None ==> time_cell(e.time_unpack) == "—"@,
        e.bytes is None && e.time_pack is None && e.time_unpack is None ==> group_cells(e)
            == "|—|0 b|—"@,
{
    reveal_strlit("|");
    reveal_strlit("—");
    reveal_strlit(" b|");
    reveal_strlit("|—|0 b|—");
    assert(grouped(0) == seq!['0']);
    if e.bytes is None && e.time_pack is None && e.time_unpack is None {
        assert(group_cells(e) =~= "|—|0 b|—"@);
    }
}

/// The table depends on the collection alone: rendering the same collection
/// again gives the same text.
pub proof fn lemma_render_repeatable(a: Seq<BenchmarkModel>, b: Seq<BenchmarkModel>)
    requires
        a == b,
    ensures
        table(a) == table(b),
{
}

pub open spec fn benchmarks_view(v: Seq<Benchmark>) -> Seq<BenchmarkModel> {
    v.map_values(|b: Benchmark| b@)
}

fn push_time(out: &mut String, t: &Option<String>)
    ensures
        final(out)@ == old(out)@ + time_cell(text_opt(*t)),
{
    match t {
        Some(s) => out.append(s.as_str()),
        None => out.append("—"),
    }
}

fn push_group(out: &mut String, e: &Compression)
    ensures
        final(out)@ == old(out)@ + group_cells(e@),
{
    let ghost start = out@;
    out.append("|");
    push_time(out, &e.time_pack);
    out.append("|");
    let n: u64 = match e.bytes {
        Some(n) => n,
        None => 0,
    };
    let g = grouped_string(n);
    out.append(g.as_str());
    out.append(" b|");
    push_time(out, &e.time_unpack);
    assert(out@ =~= start + group_cells(e@));
}

/// Renders the benchmarks as one table, rows in the first benchmark's entry
/// order and benchmarks matched by entry position.
pub fn render(benchmarks: &Vec<Benchmark>) -> (r: Option<String>)
    ensures
        text_opt(r) == table(benchmarks_view(benchmarks@)),
{
    let ghost bs = benchmarks_view(benchmarks@);
    let mut out = String::from_str("|benchmarks|");
    let mut j: usize = 0;
    while j < benchmarks.len()
        invariant
            j <= benchmarks@.len(),
            bs == benchmarks_view(benchmarks@),
            out@ == "|benchmarks|"@ + header_names(bs.subrange(0, j as int)),
        decreases benchmarks.len() - j,
    {
        let ghost before = out@;
        assert(bs.subrange(0, j + 1).drop_last() =~= bs.subrange(0, j as int));
        if j > 0 {
            out.append("|");
        }
        out.append(benchmarks[j].name.as_str());
        out.append(" ↘|bytes|↗");
        j += 1;
        assert(out@ =~= "|benchmarks|"@ + header_names(bs.subrange(0, j as int)));
    }
    out.append("|\n");
    assert(bs.subrange(0, j as int) =~= bs);
    assert(out@ =~= header_row(bs));
    if benchmarks.len() == 0 {
        return Some(out);
    }
    let n = benchmarks[0].compressions.len();
    let mut j: usize = 0;
    while j < benchmarks.len()
        invariant
            j <= benchmarks@.len(),
            bs == benchmarks_view(benchmarks@),
            n == bs[0].entries.len(),
            forall|k: int| 0 <= k < j ==> n <= (#[trigger] bs[k]).entries.len(),
        decreases benchmarks.len() - j,
    {
        if benchmarks[j].compressions.len() < n {
            assert(bs[j as int].entries.len() < n);
            assert(!aligned(bs));
            return None;
        }
        j += 1;
    }
    let mut i: usize = 0;
    while i < n
        invariant
            i <= n,
            benchmarks@.len() > 0,
            bs == benchmarks_view(benchmarks@),
            n == bs[0].entries.len(),
            aligned(bs),
            out@ == header_row(bs) + body(bs, i as int),
        decreases n - i,
    {
        let ghost before = out@;
        out.append("|");
        out.append(benchmarks[0].compressions[i].compressor.as_str());
        let mut k: usize = 0;
        while k < benchmarks.len()
            invariant
                i < n,
                k <= benchmarks@.len(),
                bs == benchmarks_view(benchmarks@),
                n == bs[0].entries.len(),
                aligned(bs),
                out@ == before + "|"@ + bs[0].entries[i as int].compressor + row_groups(
                    bs.subrange(0, k as int),
                    i as int,
                ),
            decreases benchmarks.len() - k,
        {
            assert(bs.subrange(0, k + 1).drop_last() =~= bs.subrange(0, k as int));
            assert(n <= bs[k as int].entries.len());
            push_group(&mut out, &benchmarks[k].compressions[i]);
            k += 1;
            assert(out@ =~= before + "|"@ + bs[0].entries[i as int].compressor + row_groups(
                bs.subrange(0, k as int),
                i as int,
            ));
        }
        out.append("|\n");
        assert(bs.subrange(0, k as int) =~= bs);
        i += 1;
        assert(out@ =~= header_row(bs) + body(bs, i as int));
    }
    Some(out)
}

} // verus!
