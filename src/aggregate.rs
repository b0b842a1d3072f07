//! Reading one benchmark file: a state machine over its lines that fills the
//! file's entries with byte counts and pack and unpack times.
use vstd::prelude::*;
use crate::classify::{classify_line, record_of, LineError, Phase, Record, RecordModel};
use crate::registry::{
    entries_view, entry_index, get_compressor, last_index_of, lemma_with_entry, names_unique,
    with_entry, Compression, EntryModel,
};
use crate::registry::text_opt;
use crate::text::{chars_of, matches_at, starts_with};

verus! {

/// Why a file could not be read.
#[derive(PartialEq, Eq, Structural, Clone, Copy, Debug)]
pub enum ErrorKind {
    BadByteCount,
    BadTiming,
    /// A timing result came before any section header.
    MissingSection,
    /// A second pack time for the same compressor.
    DuplicatePack,
    /// A second unpack time for the same compressor.
    DuplicateUnpack,
}

/// The line (counted from zero) that stopped the reading of a file, and why.
#[derive(PartialEq, Eq, Structural, Clone, Copy, Debug)]
pub struct ParseError {
    pub line: usize,
    pub kind: ErrorKind,
}

/// One input file's results.
pub struct Benchmark {
    pub name: String,
    pub compressions: Vec<Compression>,
}

pub struct BenchmarkModel {
    pub name: Seq<char>,
    pub entries: Seq<EntryModel>,
}

impl View for Benchmark {
    type V = BenchmarkModel;

    open spec fn view(&self) -> BenchmarkModel {
        BenchmarkModel { name: self.name@, entries: entries_view(self.compressions@) }
    }
}

/// The state carried from line to line.
pub struct Aggregator {
    pub compressions: Vec<Compression>,
    pub current: Option<String>,
    pub phase: Phase,
}

pub struct StateModel {
    pub entries: Seq<EntryModel>,
    pub current: Option<Seq<char>>,
    pub phase: Phase,
}

impl View for Aggregator {
    type V = StateModel;

    open spec fn view(&self) -> StateModel {
        StateModel {
            entries: entries_view(self.compressions@),
            current: match self.current {
                Some(s) => Some(s@),
                None => None,
            },
            phase: self.phase,
        }
    }
}

pub open spec fn initial_state() -> StateModel {
    StateModel { entries: seq![], current: None, phase: Phase::Pack }
}

pub open spec fn time_of(e: EntryModel, p: Phase) -> Option<Seq<char>> {
    match p {
        Phase::Pack => e.time_pack,
        Phase::Unpack => e.time_unpack,
    }
}

pub open spec fn with_time(e: EntryModel, p: Phase, t: Seq<char>) -> EntryModel {
    match p {
        Phase::Pack => EntryModel { time_pack: Some(t), ..e },
        Phase::Unpack => EntryModel { time_unpack: Some(t), ..e },
    }
}

pub open spec fn duplicate_error(p: Phase) -> ErrorKind {
    match p {
        Phase::Pack => ErrorKind::DuplicatePack,
        Phase::Unpack => ErrorKind::DuplicateUnpack,
    }
}

/// The state once a line's section header, if any, has been taken in.
pub open spec fn enter_section(st: StateModel, section: Option<(Seq<char>, Phase)>) -> StateModel {
    match section {
        Some((n, p)) => StateModel { current: Some(n), phase: p, ..st },
        None => st,
    }
}

/// Records time `t` for the current compressor and phase; a time already
/// there is an error.
pub open spec fn record_time(st: StateModel, t: Seq<char>) -> Result<StateModel, ErrorKind> {
    match st.current {
        None => Err(ErrorKind::MissingSection),
        Some(n) => {
            let es = with_entry(st.entries, n);
            let i = entry_index(st.entries, n);
            if time_of(es[i], st.phase) is Some {
                Err(duplicate_error(st.phase))
            } else {
                Ok(StateModel { entries: es.update(i, with_time(es[i], st.phase, t)), ..st })
            }
        },
    }
}

pub open spec fn step(st: StateModel, r: RecordModel) -> Result<StateModel, ErrorKind> {
    match r {
        RecordModel::Unrecognized => Ok(st),
        RecordModel::ByteCount { compressor, bytes } => {
            let es = with_entry(st.entries, compressor);
            let i = entry_index(st.entries, compressor);
            Ok(StateModel { entries: es.update(i, EntryModel { bytes: Some(bytes), ..es[i] }), ..st })
        },
        RecordModel::Bench { section, time } => {
            let st1 = enter_section(st, section);
            match time {
                None => Ok(st1),
                Some(t) => record_time(st1, t),
            }
        },
    }
}

pub open spec fn line_step(st: StateModel, l: Seq<char>) -> Result<StateModel, ErrorKind> {
    match record_of(l) {
        Err(LineError::BadByteCount) => Err(ErrorKind::BadByteCount),
        Err(LineError::BadTiming) => Err(ErrorKind::BadTiming),
        Ok(r) => step(st, r),
    }
}

/// The state after the lines of a file, or the first line that fails and why.
pub open spec fn run(lines: Seq<Seq<char>>) -> Result<StateModel, (int, ErrorKind)>
    decreases lines.len(),
{
    if lines.len() == 0 {
        Ok(initial_state())
    } else {
        match run(lines.drop_last()) {
            Err(e) => Err(e),
            Ok(st) => match line_step(st, lines.last()) {
                Ok(s) => Ok(s),
                Err(k) => Err((lines.len() - 1, k)),
            },
        }
    }
}

pub open spec fn lines_view(v: Seq<String>) -> Seq<Seq<char>> {
    v.map_values(|s: String| s@)
}

impl Aggregator {
    pub fn new() -> (r: Aggregator)
        ensures
            r@ == initial_state(),
    {
        let r = Aggregator { compressions: Vec::new(), current: None, phase: Phase::Pack };
        assert(r@.entries =~= seq![]);
        r
    }

    /// Takes in one line.
    pub fn feed_line(&mut self, line: &str) -> (r: Result<(), ErrorKind>)
        ensures
            match line_step(old(self)@, line@) {
                Ok(s) => r is Ok && final(self)@ == s,
                Err(k) => r == Err::<(), ErrorKind>(k),
            },
    {
        match classify_line(line) {
            Err(LineError::BadByteCount) => Err(ErrorKind::BadByteCount),
            Err(LineError::BadTiming) => Err(ErrorKind::BadTiming),
            Ok(Record::Unrecognized) => Ok(()),
            Ok(Record::ByteCount { compressor, bytes }) => {
                let e = get_compressor(&mut self.compressions, compressor.as_str());
                e.bytes = Some(bytes);
                Ok(())
            },
            Ok(Record::Bench { section, time }) => {
                if let Some(s) = section {
                    self.current = Some(s.compressor);
                    self.phase = s.phase;
                }
                match time {
                    None => Ok(()),
                    Some(t) => {
                        let phase = self.phase;
                        match &self.current {
                            None => Err(ErrorKind::MissingSection),
                            Some(name) => {
                                let e = get_compressor(&mut self.compressions, name.as_str());
                                match phase {
                                    Phase::Pack => {
                                        if e.time_pack.is_some() {
                                            Err(ErrorKind::DuplicatePack)
                                        } else {
                                            e.time_pack = Some(t);
                                            Ok(())
                                        }
                                    },
                                    Phase::Unpack => {
                                        if e.time_unpack.is_some() {
                                            Err(ErrorKind::DuplicateUnpack)
                                        } else {
                                            e.time_unpack = Some(t);
                                            Ok(())
                                        }
                                    },
                                }
                            },
                        }
                    },
                }
            },
        }
    }
}

/// Reads the lines of one file into its entries, in first-seen order.
pub fn aggregate_lines(lines: &Vec<String>) -> (r: Result<Vec<Compression>, ParseError>)
    ensures
        match run(lines_view(lines@)) {
            Ok(st) => r is Ok && entries_view(r->Ok_0@) == st.entries,
            Err((i, k)) => r is Err && r->Err_0 == ParseError { line: i as usize, kind: k },
        },
{
    let mut agg = Aggregator::new();
    let mut i: usize = 0;
    while i < lines.len()
        invariant
            i <= lines@.len(),
            run(lines_view(lines@).subrange(0, i as int)) == Ok::<StateModel, (int, ErrorKind)>(agg@),
        decreases lines.len() - i,
    {
        let ghost pre = lines_view(lines@).subrange(0, i + 1);
        assert(pre.drop_last() =~= lines_view(lines@).subrange(0, i as int));
        match agg.feed_line(lines[i].as_str()) {
            Ok(()) => {},
            Err(kind) => {
                proof {
                    lemma_run_error_stays(lines_view(lines@), i + 1);
                }
                return Err(ParseError { line: i, kind });
            },
        }
        i += 1;
    }
    assert(lines_view(lines@).subrange(0, i as int) =~= lines_view(lines@));
    Ok(agg.compressions)
}

/// An error on some line is the error of every longer run of lines.
proof fn lemma_run_error_stays(lines: Seq<Seq<char>>, i: int)
    requires
        0 <= i <= lines.len(),
        run(lines.subrange(0, i)) is Err,
    ensures
        run(lines) == run(lines.subrange(0, i)),
    decreases lines.len() - i,
{
    if i < lines.len() {
        assert(lines.subrange(0, i + 1).drop_last() =~= lines.subrange(0, i));
        lemma_run_error_stays(lines, i + 1);
    } else {
        assert(lines.subrange(0, i) =~= lines);
    }
}

/// Reads one file's lines into a benchmark called `name`.
pub fn parse_benchmark(name: String, lines: &Vec<String>) -> (r: Result<Benchmark, ParseError>)
    ensures
        match run(lines_view(lines@)) {
            Ok(st) => r is Ok && r->Ok_0.name == name && entries_view(r->Ok_0.compressions@)
                == st.entries,
            Err((i, k)) => r is Err && r->Err_0 == ParseError { line: i as usize, kind: k },
        },
{
    match aggregate_lines(lines) {
        Ok(compressions) => Ok(Benchmark { name, compressions }),
        Err(e) => Err(e),
    }
}

/// The benchmark named by a file stem `rust-compression-<name>`.
pub open spec fn benchmark_name_of(stem: Seq<char>) -> Option<Seq<char>> {
    let pre = "rust-compression-"@;
    if starts_with(stem, pre) {
        Some(stem.subrange(pre.len() as int, stem.len() as int))
    } else {
        None
    }
}

/// The benchmark name carried by a file stem, or `None` when the stem lacks
/// the `rust-compression-` prefix.
pub fn benchmark_name(stem: &str) -> (r: Option<String>)
    ensures
        text_opt(r) == benchmark_name_of(stem@),
{
    let s = chars_of(stem);
    let pre = chars_of("rust-compression-");
    if matches_at(&s, &pre, 0) {
        Some(stem.substring_char(pre.len(), s.len()).to_owned())
    } else {
        None
    }
}

proof fn lemma_update_keeps_unique(es: Seq<EntryModel>, i: int, x: EntryModel)
    requires
        names_unique(es),
        0 <= i < es.len(),
        x.compressor == es[i].compressor,
    ensures
        names_unique(es.update(i, x)),
{
    let u = es.update(i, x);
    assert forall|a: int, b: int|
        0 <= a < u.len() && 0 <= b < u.len() && a != b implies u[a].compressor
        != u[b].compressor by {
        assert(u[a].compressor == es[a].compressor);
        assert(u[b].compressor == es[b].compressor);
    }
}

proof fn lemma_step_keeps_unique(st: StateModel, l: Seq<char>)
    requires
        names_unique(st.entries),
    ensures
        line_step(st, l) matches Ok(s) ==> names_unique(s.entries),
{
    match record_of(l) {
        Ok(RecordModel::ByteCount { compressor, bytes }) => {
            lemma_with_entry(st.entries, compressor);
            let es = with_entry(st.entries, compressor);
            let i = entry_index(st.entries, compressor);
            lemma_update_keeps_unique(es, i, EntryModel { bytes: Some(bytes), ..es[i] });
        },
        Ok(RecordModel::Bench { section, time: Some(t) }) => {
            let st1 = enter_section(st, section);
            if let Some(n) = st1.current {
                lemma_with_entry(st1.entries, n);
                let es = with_entry(st1.entries, n);
                let i = entry_index(st1.entries, n);
                lemma_update_keeps_unique(es, i, with_time(es[i], st1.phase, t));
            }
        },
        _ => {},
    }
}

/// After any file that reads without error, no two entries share a name.
pub proof fn lemma_run_names_unique(lines: Seq<Seq<char>>)
    ensures
        run(lines) matches Ok(st) ==> names_unique(st.entries),
    decreases lines.len(),
{
    if lines.len() > 0 {
        lemma_run_names_unique(lines.drop_last());
        if let Ok(st) = run(lines.drop_last()) {
            lemma_step_keeps_unique(st, lines.last());
        }
    }
}

/// What one line keeps: the entries already there stay, in place, under the
/// same names, and a time once recorded is never replaced.
pub open spec fn keeps_recorded(a: StateModel, b: StateModel) -> bool {
    &&& a.entries.len() <= b.entries.len()
    &&& forall|j: int|
        0 <= j < a.entries.len() ==> {
            &&& (#[trigger] b.entries[j]).compressor == a.entries[j].compressor
            &&& a.entries[j].time_pack is Some ==> b.entries[j].time_pack == a.entries[j].time_pack
            &&& a.entries[j].time_unpack is Some ==> b.entries[j].time_unpack
                == a.entries[j].time_unpack
        }
}

proof fn lemma_step_keeps_recorded(st: StateModel, l: Seq<char>)
    ensures
        line_step(st, l) matches Ok(s) ==> keeps_recorded(st, s),
{
    match record_of(l) {
        Ok(RecordModel::ByteCount { compressor, bytes }) => {
            lemma_with_entry_prefix(st.entries, compressor);
        },
        Ok(RecordModel::Bench { section, time: Some(t) }) => {
            let st1 = enter_section(st, section);
            if let Some(n) = st1.current {
                lemma_with_entry_prefix(st1.entries, n);
                crate::registry::lemma_last_index_of(st1.entries, n);
            }
        },
        _ => {},
    }
}

proof fn lemma_with_entry_prefix(es: Seq<EntryModel>, n: Seq<char>)
    ensures
        es.len() <= with_entry(es, n).len(),
        forall|j: int| 0 <= j < es.len() ==> with_entry(es, n)[j] == es[j],
        0 <= entry_index(es, n) < with_entry(es, n).len(),
{
    crate::registry::lemma_last_index_of(es, n);
}

/// Once a file's lines have recorded a time for an entry, every longer run of
/// lines that still reads without error keeps that entry at its place, under
/// its name, with that very time: a time is written at most once.
pub proof fn lemma_recorded_time_kept(lines: Seq<Seq<char>>, more: Seq<Seq<char>>)
    requires
        run(lines) is Ok,
        run(lines + more) is Ok,
    ensures
        keeps_recorded(run(lines)->Ok_0, run(lines + more)->Ok_0),
    decreases more.len(),
{
    if more.len() == 0 {
        assert(lines + more =~= lines);
    } else {
        let shorter = lines + more.drop_last();
        assert((lines + more).drop_last() =~= shorter);
        assert((lines + more).last() == more.last());
        lemma_recorded_time_kept(lines, more.drop_last());
        lemma_step_keeps_recorded(run(shorter)->Ok_0, more.last());
    }
}

/// A timing line for a compressor and phase that already hold a time stops
/// the file with the duplicate error of that phase, at that line.
pub proof fn lemma_second_time_refused(
    lines: Seq<Seq<char>>,
    l: Seq<char>,
    section: Option<(Seq<char>, Phase)>,
    t: Seq<char>,
    n: Seq<char>,
    i: int,
)
    requires
        run(lines) is Ok,
        record_of(l) == Ok::<RecordModel, LineError>(RecordModel::Bench { section, time: Some(t) }),
        enter_section(run(lines)->Ok_0, section).current == Some(n),
        last_index_of(run(lines)->Ok_0.entries, n) == Some(i),
        time_of(run(lines)->Ok_0.entries[i], enter_section(run(lines)->Ok_0, section).phase) is Some,
    ensures
        run(lines.push(l)) == Err::<StateModel, (int, ErrorKind)>(
            (lines.len() as int, duplicate_error(enter_section(run(lines)->Ok_0, section).phase)),
        ),
{
    assert(lines.push(l).drop_last() =~= lines);
}

} // verus!
