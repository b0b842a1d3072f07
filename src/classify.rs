//! Classification of one line of benchmark output: a byte-count summary, a
//! section header naming the compressor and phase that follow, a timing
//! result, or nothing of interest.
use vstd::prelude::*;
use crate::number::{is_decimal, parse_u64, all_digits_in, parse_u64_in};
use crate::registry::text_opt;
use crate::text::{
    chars_of, ends_with, field_end, field_end_in, find_from, first_from, lemma_first_from,
    matches_at, occurs_at, range_is, starts_with, sub_chars,
};

verus! {

/// Which half of a round trip a timing belongs to.
#[derive(PartialEq, Eq, Structural, Clone, Copy, Debug)]
pub enum Phase {
    Pack,
    Unpack,
}

/// The compressor and phase that a section header announces.
pub struct Section {
    pub compressor: String,
    pub phase: Phase,
}

/// What one line says.
pub enum Record {
    /// `<compressor>: <count> bytes`
    ByteCount { compressor: String, bytes: u64 },
    /// A section header, a timing result, or both on one line.
    Bench { section: Option<Section>, time: Option<String> },
    Unrecognized,
}

/// Why a line could not be read.
#[derive(PartialEq, Eq, Structural, Clone, Copy, Debug)]
pub enum LineError {
    /// The count of a byte-count line is not an unsigned 64-bit integer.
    BadByteCount,
    /// A timing result lacks its figure and unit, or the figure is not a number.
    BadTiming,
}

pub enum RecordModel {
    ByteCount { compressor: Seq<char>, bytes: u64 },
    Bench { section: Option<(Seq<char>, Phase)>, time: Option<Seq<char>> },
    Unrecognized,
}

pub open spec fn section_view(s: Option<Section>) -> Option<(Seq<char>, Phase)> {
    match s {
        Some(s) => Some((s.compressor@, s.phase)),
        None => None,
    }
}

impl View for Record {
    type V = RecordModel;

    open spec fn view(&self) -> RecordModel {
        match self {
            Record::ByteCount { compressor, bytes } => RecordModel::ByteCount {
                compressor: compressor@,
                bytes: *bytes,
            },
            Record::Bench { section, time } => RecordModel::Bench {
                section: section_view(*section),
                time: text_opt(*time),
            },
            Record::Unrecognized => RecordModel::Unrecognized,
        }
    }
}

pub open spec fn record_result_view(r: Result<Record, LineError>) -> Result<RecordModel, LineError> {
    match r {
        Ok(rec) => Ok(rec@),
        Err(e) => Err(e),
    }
}

/// A byte-count line: `<compressor>: <count> bytes`. Without the `": "` the
/// line says nothing; a count that is no number is an error.
pub open spec fn byte_count_record(l: Seq<char>) -> Result<RecordModel, LineError> {
    let body = l.subrange(0, l.len() - " bytes"@.len());
    match first_from(body, ": "@, 0) {
        None => Ok(RecordModel::Unrecognized),
        Some(i) => {
            let v = i + ": "@.len();
            match parse_u64(body.subrange(v, field_end(body, ": "@, v))) {
                Some(n) => Ok(RecordModel::ByteCount { compressor: body.subrange(0, i), bytes: n }),
                None => Err(LineError::BadByteCount),
            }
        },
    }
}

/// A section header: `compression/<name>.<phase>[.crc][...]`, the identifier
/// ending at the first space. The `crc` marker names a variant of the
/// compressor: `<name> + crc`.
pub open spec fn section_of(l: Seq<char>) -> Option<(Seq<char>, Phase)> {
    let pre = "compression/"@;
    if !starts_with(l, pre) {
        None
    } else {
        let rest = l.subrange(pre.len() as int, l.len() as int);
        let ident = rest.subrange(0, field_end(rest, " "@, 0));
        match first_from(ident, "."@, 0) {
            None => None,
            Some(a) => {
                let tag = a + "."@.len();
                let e = field_end(ident, "."@, tag);
                let marked = e < ident.len() && ident.subrange(
                    e + "."@.len(),
                    field_end(ident, "."@, e + "."@.len()),
                ) == "crc"@;
                let base = ident.subrange(0, a);
                let name = if marked {
                    base + " + crc"@
                } else {
                    base
                };
                let phase = if ident.subrange(tag, e) == "unpack"@ {
                    Phase::Unpack
                } else {
                    Phase::Pack
                };
                Some((name, phase))
            },
        }
    }
}

/// Characters that separate the tokens of a timing result.
pub open spec fn is_blank(c: char) -> bool {
    c == ' ' || c == '\t' || c == '[' || c == ']'
}

/// The maximal runs of non-blank characters of `s`, in order.
pub open spec fn tokens(s: Seq<char>) -> Seq<Seq<char>>
    decreases s.len(),
{
    if s.len() == 0 {
        seq![]
    } else {
        let t = tokens(s.drop_last());
        let c = s.last();
        if is_blank(c) {
            t
        } else if s.len() >= 2 && !is_blank(s[s.len() - 2]) && t.len() > 0 {
            t.update(t.len() - 1, t.last().push(c))
        } else {
            t.push(seq![c])
        }
    }
}

/// A timing result: after the marker `time:`, the third token is the figure
/// and the fourth its unit, kept together as `<figure> <unit>`.
pub open spec fn timing_of(l: Seq<char>) -> Option<Result<Seq<char>, LineError>> {
    match first_from(l, "time:"@, 0) {
        None => None,
        Some(m) => {
            let ts = tokens(l.subrange(m + "time:"@.len(), l.len() as int));
            if ts.len() >= 4 && is_decimal(ts[2]) {
                Some(Ok(ts[2] + " "@ + ts[3]))
            } else {
                Some(Err(LineError::BadTiming))
            }
        },
    }
}

/// What a line says. A byte-count line is never read as anything else; a
/// header and a timing result may share a line.
pub open spec fn record_of(l: Seq<char>) -> Result<RecordModel, LineError> {
    if ends_with(l, " bytes"@) {
        byte_count_record(l)
    } else {
        match timing_of(l) {
            Some(Err(e)) => Err(e),
            Some(Ok(t)) => Ok(RecordModel::Bench { section: section_of(l), time: Some(t) }),
            None => match section_of(l) {
                None => Ok(RecordModel::Unrecognized),
                Some(s) => Ok(RecordModel::Bench { section: Some(s), time: None }),
            },
        }
    }
}

fn byte_count_in(line: &str, l: &Vec<char>, suffix_len: usize) -> (r: Result<Record, LineError>)
    requires
        l@ == line@,
        suffix_len == " bytes"@.len(),
        suffix_len <= l@.len(),
    ensures
        record_result_view(r) == byte_count_record(l@),
{
    let body = sub_chars(l, 0, l.len() - suffix_len);
    let sep = chars_of(": ");
    match find_from(&body, &sep, 0) {
        None => Ok(Record::Unrecognized),
        Some(i) => {
            let v = i + sep.len();
            let e = field_end_in(&body, &sep, v);
            match parse_u64_in(&body, v, e) {
                Some(n) => {
                    let name = line.substring_char(0, i).to_owned();
                    assert(name@ =~= body@.subrange(0, i as int));
                    Ok(Record::ByteCount { compressor: name, bytes: n })
                },
                None => Err(LineError::BadByteCount),
            }
        },
    }
}

fn section_in(line: &str, l: &Vec<char>) -> (r: Option<Section>)
    requires
        l@ == line@,
    ensures
        section_view(r) == section_of(l@),
{
    let pre = chars_of("compression/");
    if !matches_at(l, &pre, 0) {
        return None;
    }
    let p = pre.len();
    let rest = sub_chars(l, p, l.len());
    let space = chars_of(" ");
    let k = field_end_in(&rest, &space, 0);
    let ident = sub_chars(&rest, 0, k);
    let dot = chars_of(".");
    let a = match find_from(&ident, &dot, 0) {
        None => {
            return None;
        },
        Some(a) => a,
    };
    let tag = a + dot.len();
    let e = field_end_in(&ident, &dot, tag);
    let crc = chars_of("crc");
    let marked = if e < ident.len() {
        proof {
            lemma_first_from(ident@, dot@, tag as int);
        }
        let f = field_end_in(&ident, &dot, e + dot.len());
        range_is(&ident, e + dot.len(), f, &crc)
    } else {
        false
    };
    let unpack = chars_of("unpack");
    let phase = if range_is(&ident, tag, e, &unpack) {
        Phase::Unpack
    } else {
        Phase::Pack
    };
    let base = line.substring_char(p, p + a).to_owned();
    assert(base@ =~= ident@.subrange(0, a as int));
    let name = if marked {
        base.concat(" + crc")
    } else {
        base
    };
    Some(Section { compressor: name, phase })
}

/// The spans of the tokens of `l[start..]`.
fn token_spans(l: &Vec<char>, start: usize) -> (spans: Vec<(usize, usize)>)
    requires
        start <= l@.len(),
    ensures
        spans@.len() == tokens(l@.subrange(start as int, l@.len() as int)).len(),
        forall|k: int|
            0 <= k < spans@.len() ==> {
                &&& start <= (#[trigger] spans@[k]).0 <= spans@[k].1 <= l@.len()
                &&& l@.subrange(spans@[k].0 as int, spans@[k].1 as int) == tokens(
                    l@.subrange(start as int, l@.len() as int),
                )[k]
            },
{
    let mut spans: Vec<(usize, usize)> = Vec::new();
    let mut i: usize = start;
    while i < l.len()
        invariant
            start <= i <= l@.len(),
            spans@.len() == tokens(l@.subrange(start as int, i as int)).len(),
            forall|k: int|
                0 <= k < spans@.len() ==> {
                    &&& start <= (#[trigger] spans@[k]).0 <= spans@[k].1 <= i
                    &&& l@.subrange(spans@[k].0 as int, spans@[k].1 as int) == tokens(
                        l@.subrange(start as int, i as int),
                    )[k]
                },
            i > start && !is_blank(l@[i - 1]) ==> spans@.len() > 0 && spans@.last().1 == i,
        decreases l.len() - i,
    {
        let ghost before = l@.subrange(start as int, i as int);
        let ghost after = l@.subrange(start as int, i + 1);
        assert(after.drop_last() =~= before);
        assert(after.last() == l@[i as int]);
        let c = l[i];
        let blank = c == ' ' || c == '\t' || c == '[' || c == ']';
        if blank {
        } else if i > start && !(l[i - 1] == ' ' || l[i - 1] == '\t' || l[i - 1] == '[' || l[
            i - 1] == ']') {
            assert(after[after.len() - 2] == l@[i - 1]);
            let last = spans.len() - 1;
            let (a, _) = spans[last];
            spans.set(last, (a, i + 1));
            assert(l@.subrange(a as int, i + 1) =~= l@.subrange(a as int, i as int).push(c));
        } else {
            spans.push((i, i + 1));
            assert(l@.subrange(i as int, i + 1) =~= seq![c]);
        }
        i += 1;
    }
    spans
}

fn is_decimal_in(v: &Vec<char>, a: usize, b: usize) -> (r: bool)
    requires
        a <= b <= v@.len(),
    ensures
        r == is_decimal(v@.subrange(a as int, b as int)),
{
    let t = sub_chars(v, a, b);
    let mut dot: Vec<char> = Vec::new();
    dot.push('.');
    assert(dot@ =~= seq!['.']);
    assert(t@.subrange(0, t@.len() as int) =~= t@);
    match find_from(&t, &dot, 0) {
        None => t.len() > 0 && all_digits_in(&t, 0, t.len()),
        Some(k) => {
            0 < k && k + 1 < t.len() && all_digits_in(&t, 0, k) && all_digits_in(&t, k + 1, t.len())
        },
    }
}

pub open spec fn timing_view(t: Option<Result<String, LineError>>) -> Option<Result<Seq<char>, LineError>> {
    match t {
        Some(Ok(s)) => Some(Ok(s@)),
        Some(Err(e)) => Some(Err(e)),
        None => None,
    }
}

fn timing_in(line: &str, l: &Vec<char>) -> (r: Option<Result<String, LineError>>)
    requires
        l@ == line@,
    ensures
        timing_view(r) == timing_of(l@),
{
    let marker = chars_of("time:");
    let m = match find_from(l, &marker, 0) {
        None => {
            return None;
        },
        Some(m) => m,
    };
    let n = l.len();
    assert(occurs_at(l@, marker@, m as int) && m + marker@.len() <= n);
    let spans = token_spans(l, m + marker.len());
    if spans.len() < 4 {
        return Some(Err(LineError::BadTiming));
    }
    let (a2, b2) = spans[2];
    let (a3, b3) = spans[3];
    if !is_decimal_in(l, a2, b2) {
        return Some(Err(LineError::BadTiming));
    }
    let mut t = line.substring_char(a2, b2).to_owned();
    t.append(" ");
    t.append(line.substring_char(a3, b3));
    Some(Ok(t))
}

/// Reads one line of benchmark output.
pub fn classify_line(line: &str) -> (r: Result<Record, LineError>)
    ensures
        record_result_view(r) == record_of(line@),
{
    let l = chars_of(line);
    let suffix = chars_of(" bytes");
    if suffix.len() <= l.len() && matches_at(&l, &suffix, l.len() - suffix.len()) {
        return byte_count_in(line, &l, suffix.len());
    }
    let section = section_in(line, &l);
    match timing_in(line, &l) {
        Some(Err(e)) => Err(e),
        Some(Ok(t)) => Ok(Record::Bench { section, time: Some(t) }),
        None => match section {
            None => Ok(Record::Unrecognized),
            Some(s) => Ok(Record::Bench { section: Some(s), time: None }),
        },
    }
}

} // verus!
