use compression_report::aggregate::{
    aggregate_lines, benchmark_name, parse_benchmark, Aggregator, Benchmark, ErrorKind,
    ParseError,
};
use compression_report::classify::{classify_line, LineError, Phase, Record};
use compression_report::registry::{get_compressor, Compression};
use compression_report::render::render;

fn lines(text: &[&str]) -> Vec<String> {
    text.iter().map(|s| s.to_string()).collect()
}

fn bench(name: &str, text: &[&str]) -> Benchmark {
    match parse_benchmark(name.to_string(), &lines(text)) {
        Ok(b) => b,
        Err(e) => panic!("unexpected error {:?}", e),
    }
}

#[test]
fn single_file_pack_bytes_unpack() {
    let es = aggregate_lines(&lines(&[
        "compression/lz4.pack time: [1 2 3 ms]",
        "lz4: 100 bytes",
        "compression/lz4.unpack time: [1 2 3 ms]",
    ]))
    .ok()
    .unwrap();
    assert_eq!(es.len(), 1);
    assert_eq!(es[0].compressor, "lz4");
    assert_eq!(es[0].time_pack.as_deref(), Some("3 ms"));
    assert_eq!(es[0].bytes, Some(100));
    assert_eq!(es[0].time_unpack.as_deref(), Some("3 ms"));
}

#[test]
fn crc_variant_is_its_own_entry() {
    let es = aggregate_lines(&lines(&[
        "compression/snappy.unpack time: [1 2 3 ms]",
        "compression/snappy.unpack.crc time: [4 5 6 us]",
    ]))
    .ok()
    .unwrap();
    assert_eq!(es.len(), 2);
    assert_eq!(es[0].compressor, "snappy");
    assert_eq!(es[0].time_unpack.as_deref(), Some("3 ms"));
    assert_eq!(es[1].compressor, "snappy + crc");
    assert_eq!(es[1].time_unpack.as_deref(), Some("6 us"));
    assert_eq!(es[1].time_pack, None);
}

#[test]
fn two_files_each_missing_one_phase() {
    let a = bench("small", &["compression/zstd.pack time: [1 2 3 ms]"]);
    let b = bench("large", &["compression/zstd.unpack time: [4 5 6 ms]"]);
    let out = render(&vec![a, b]).unwrap();
    assert_eq!(
        out,
        "|benchmarks|small ↘|bytes|↗|large ↘|bytes|↗|\n|zstd|3 ms|0 b|—|—|0 b|6 ms|\n"
    );
}

#[test]
fn timing_creates_fresh_entry_on_demand() {
    let es = aggregate_lines(&lines(&[
        "lz4: 7 bytes",
        "compression/brotli.pack",
        "                        time:   [1.0 ms 1.1 ms 1.2 ms]",
    ]))
    .ok()
    .unwrap();
    assert_eq!(es.len(), 2);
    assert_eq!(es[1].compressor, "brotli");
    assert_eq!(es[1].time_pack.as_deref(), Some("1.1 ms"));
    assert_eq!(es[1].bytes, None);
    assert_eq!(es[1].time_unpack, None);
    assert_eq!(es[0].bytes, Some(7));
}

#[test]
fn names_stay_unique_in_first_seen_order() {
    let es = aggregate_lines(&lines(&[
        "b: 1 bytes",
        "a: 2 bytes",
        "compression/b.pack time: [1 2 3 ms]",
        "compression/a.pack time: [1 2 4 ms]",
        "b: 5 bytes",
        "compression/b.unpack time: [1 2 6 ms]",
    ]))
    .ok()
    .unwrap();
    let names: Vec<&str> = es.iter().map(|e| e.compressor.as_str()).collect();
    assert_eq!(names, vec!["b", "a"]);
    assert_eq!(es[0].bytes, Some(5));
    assert_eq!(es[0].time_unpack.as_deref(), Some("6 ms"));
}

#[test]
fn second_pack_time_is_refused() {
    let r = aggregate_lines(&lines(&[
        "compression/lz4.pack time: [1 2 3 ms]",
        "other text",
        "compression/lz4.pack time: [1 2 3 ms]",
    ]));
    assert_eq!(r.err(), Some(ParseError { line: 2, kind: ErrorKind::DuplicatePack }));
}

#[test]
fn second_unpack_time_is_refused() {
    let r = aggregate_lines(&lines(&[
        "compression/lz4.unpack time: [1 2 3 ms]",
        "   time: [1 2 3 ms]",
    ]));
    assert_eq!(r.err(), Some(ParseError { line: 1, kind: ErrorKind::DuplicateUnpack }));
}

#[test]
fn timing_before_any_header_is_refused() {
    let r = aggregate_lines(&lines(&["time: [1 2 3 ms]"]));
    assert_eq!(r.err(), Some(ParseError { line: 0, kind: ErrorKind::MissingSection }));
}

#[test]
fn bad_byte_count_is_refused() {
    let r = aggregate_lines(&lines(&["x", "lz4: ten bytes"]));
    assert_eq!(r.err(), Some(ParseError { line: 1, kind: ErrorKind::BadByteCount }));
    let r = aggregate_lines(&lines(&["lz4: 18446744073709551616 bytes"]));
    assert_eq!(r.err(), Some(ParseError { line: 0, kind: ErrorKind::BadByteCount }));
}

#[test]
fn largest_byte_count_is_read() {
    let es = aggregate_lines(&lines(&["lz4: 18446744073709551615 bytes"])).ok().unwrap();
    assert_eq!(es[0].bytes, Some(u64::MAX));
    let es = aggregate_lines(&lines(&["lz4: +12 bytes"])).ok().unwrap();
    assert_eq!(es[0].bytes, Some(12));
}

#[test]
fn bad_timing_is_refused() {
    let r = aggregate_lines(&lines(&["compression/lz4.pack time: [1 2]"]));
    assert_eq!(r.err(), Some(ParseError { line: 0, kind: ErrorKind::BadTiming }));
    let r = aggregate_lines(&lines(&["compression/lz4.pack time: [1 2 x ms]"]));
    assert_eq!(r.err(), Some(ParseError { line: 0, kind: ErrorKind::BadTiming }));
}

#[test]
fn byte_suffix_without_separator_is_ignored() {
    let es = aggregate_lines(&lines(&["lz4 100 bytes", "nothing here"])).ok().unwrap();
    assert!(es.is_empty());
}

#[test]
fn classify_recognises_each_kind() {
    match classify_line("zstd: 42 bytes") {
        Ok(Record::ByteCount { compressor, bytes }) => {
            assert_eq!(compressor, "zstd");
            assert_eq!(bytes, 42);
        }
        _ => panic!("expected a byte count"),
    }
    match classify_line("compression/zstd.unpack") {
        Ok(Record::Bench { section: Some(s), time: None }) => {
            assert_eq!(s.compressor, "zstd");
            assert_eq!(s.phase, Phase::Unpack);
        }
        _ => panic!("expected a header"),
    }
    match classify_line("compression/zstd.pack.other   time:   [1.5 ms 2.25 ms 3 ms]") {
        Ok(Record::Bench { section: Some(s), time: Some(t) }) => {
            assert_eq!(s.compressor, "zstd");
            assert_eq!(s.phase, Phase::Pack);
            assert_eq!(t, "2.25 ms");
        }
        _ => panic!("expected a header with a timing"),
    }
    assert!(matches!(classify_line("compression/zstd"), Ok(Record::Unrecognized)));
    assert!(matches!(classify_line("time: [1 2]"), Err(LineError::BadTiming)));
}

#[test]
fn absent_values_render_as_zero_and_placeholder() {
    let b = bench("x", &["compression/lz4.pack"]);
    assert_eq!(b.compressions.len(), 0);
    let mut es: Vec<Compression> = Vec::new();
    get_compressor(&mut es, "lz4");
    let out = render(&vec![Benchmark { name: "x".to_string(), compressions: es }]).unwrap();
    assert_eq!(out, "|benchmarks|x ↘|bytes|↗|\n|lz4|—|0 b|—|\n");
}

#[test]
fn byte_counts_are_grouped() {
    let b = bench("x", &["lz4: 1234567 bytes", "zstd: 999 bytes", "gz: 1000 bytes"]);
    let out = render(&vec![b]).unwrap();
    assert_eq!(
        out,
        "|benchmarks|x ↘|bytes|↗|\n|lz4|—|1.234.567 b|—|\n|zstd|—|999 b|—|\n|gz|—|1.000 b|—|\n"
    );
}

#[test]
fn rows_follow_first_benchmark_order() {
    let a = bench("a", &["x: 1 bytes", "y: 2 bytes"]);
    let b = bench("b", &["y: 3 bytes", "x: 4 bytes"]);
    let out = render(&vec![a, b]).unwrap();
    assert_eq!(
        out,
        "|benchmarks|a ↘|bytes|↗|b ↘|bytes|↗|\n|x|—|1 b|—|—|3 b|—|\n|y|—|2 b|—|—|4 b|—|\n"
    );
}

#[test]
fn rendering_twice_is_identical() {
    let bs = vec![bench("a", &["compression/lz4.pack time: [1 2 3 ms]", "lz4: 5000 bytes"])];
    let first = render(&bs).unwrap();
    let second = render(&bs).unwrap();
    assert_eq!(first, second);
}

#[test]
fn shorter_benchmark_is_refused() {
    let a = bench("a", &["x: 1 bytes", "y: 2 bytes"]);
    let b = bench("b", &["x: 1 bytes"]);
    assert!(render(&vec![a, b]).is_none());
}

#[test]
fn empty_collection_renders_header_only() {
    assert_eq!(render(&Vec::new()).unwrap(), "|benchmarks||\n");
}

#[test]
fn feeding_lines_one_at_a_time() {
    let mut agg = Aggregator::new();
    assert_eq!(agg.feed_line("compression/lz4.unpack"), Ok(()));
    assert_eq!(agg.feed_line("time:   [9 ns 10 ns 11 ns]"), Ok(()));
    assert_eq!(agg.compressions[0].time_unpack.as_deref(), Some("10 ns"));
    assert_eq!(agg.phase, Phase::Unpack);
}

#[test]
fn benchmark_names_come_from_the_stem() {
    assert_eq!(benchmark_name("rust-compression-text").as_deref(), Some("text"));
    assert_eq!(benchmark_name("other-text"), None);
}
