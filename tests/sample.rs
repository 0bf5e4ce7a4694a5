use flate2::read::GzDecoder;
use flate2::write::GzEncoder;
use flate2::Compression;
use rsfqc::sample::{FileProbe, FqObject, SampleError};
use std::io::{BufRead, BufReader, Write};

fn text_lines(v: &[&str]) -> Vec<String> {
    v.iter().map(|s| s.to_string()).collect()
}

fn probe_for(first_lines: &[String], head: &[u8]) -> FileProbe {
    FileProbe {
        is_file: true,
        head: head.to_vec(),
        readable: true,
        first_lines: first_lines.iter().take(12).cloned().collect(),
    }
}

fn processed(path: &str, n: usize, lines: &[String], head: &[u8]) -> (FqObject, Result<(), SampleError>) {
    let mut fq = FqObject::new(path.to_string(), n);
    fq.pre_process(&probe_for(lines, head));
    let r = fq.process_multi(&lines.to_vec());
    (fq, r)
}

fn sample_text() -> Vec<String> {
    text_lines(&[
        "@r1", "ACGTACGT", "+", "IIIIIIII",
        "@r2", "ACG", "+", "!!5",
        "@r3", "ACGTA", "+", "55555",
    ])
}

#[test]
fn new_holder_starts_unprocessed() {
    let fq = FqObject::new("reads.fq".to_string(), 100000);
    assert_eq!(fq.filepath, "reads.fq");
    assert_eq!(fq.number_of_records_used, 100000);
    assert!(!fq.isFile && !fq.isReadable && !fq.isFastq && !fq.gzipped && !fq.processed);
    assert!(fq.first_n_sequences.is_empty() && fq.first_n_quality.is_empty());
    assert_eq!((fq.plot_width, fq.plot_height), (140, 60));
}

#[test]
fn gates_pass_in_order() {
    let lines = sample_text();
    let mut fq = FqObject::new("a.fq".to_string(), 10);
    fq.pre_process(&probe_for(&lines, b"@r"));
    assert!(fq.isFile && fq.isReadable && fq.isFastq && !fq.gzipped);

    let mut dir = FqObject::new("dir".to_string(), 10);
    let mut p = probe_for(&lines, b"@r");
    p.is_file = false;
    dir.pre_process(&p);
    assert!(!dir.isFile && !dir.isReadable && !dir.isFastq);

    let mut tiny = FqObject::new("tiny".to_string(), 10);
    tiny.pre_process(&probe_for(&lines, b"@"));
    assert!(tiny.isFile && !tiny.isReadable && !tiny.isFastq);

    let mut gz = FqObject::new("a.fq.gz".to_string(), 10);
    gz.pre_process(&probe_for(&lines, &[0x1f, 0x8b]));
    assert!(gz.gzipped && gz.isFastq);

    let mut other = FqObject::new("a.fa".to_string(), 10);
    other.pre_process(&probe_for(&text_lines(&[">r1", "ACGT", ">r2"]), b">r"));
    assert!(other.isReadable && !other.isFastq);
}

#[test]
fn processing_before_the_gates_is_refused() {
    let mut fq = FqObject::new("a.fq".to_string(), 10);
    assert_eq!(fq.process_multi(&sample_text()), Err(SampleError::NotValidated));
    assert!(!fq.processed);
}

#[test]
fn statistics_of_a_small_sample() {
    let (fq, r) = processed("a.fq", 10, &sample_text(), b"@r");
    assert_eq!(r, Ok(()));
    assert!(fq.processed && !fq.isLongReads);
    assert_eq!(fq.first_n_sequences.len(), fq.first_n_quality.len());
    assert_eq!((fq.len_min, fq.len_median, fq.len_mean, fq.len_max), (3, 3, 5, 8));
    // record means: 40, 6, 20; positional median is the middle record
    assert_eq!((fq.qual_min, fq.qual_median, fq.qual_mean, fq.qual_max), (6, 6, 22, 40));
    assert_eq!((fq.unique_reads, fq.sampled_reads), (3, 3));
}

#[test]
fn median_is_positional_not_sorted() {
    let lines = text_lines(&[
        "@a", "AAAAAAAAAA", "+", "IIIIIIIIII",
        "@b", "A", "+", "I",
        "@c", "AAAAA", "+", "IIIII",
    ]);
    let (fq, r) = processed("m.fq", 10, &lines, b"@a");
    assert_eq!(r, Ok(()));
    // lengths 10, 1, 5: index 1 holds 1, while the sorted median would be 5
    assert_eq!(fq.len_median, 1);
}

#[test]
fn sample_size_caps_the_records_used() {
    let (fq, r) = processed("a.fq", 2, &sample_text(), b"@r");
    assert_eq!(r, Ok(()));
    assert_eq!(fq.first_n_sequences, text_lines(&["ACGTACGT", "ACG"]));
    assert_eq!(fq.sampled_reads, 2);
}

#[test]
fn short_file_is_processed_without_crashing() {
    let lines = text_lines(&["@r1", "ACGT", "+"]);
    let (fq, r) = processed("short.fq", 3, &lines, b"@r");
    assert!(fq.isFastq);
    assert_eq!(fq.first_n_sequences, text_lines(&["ACGT"]));
    assert!(fq.first_n_quality.is_empty());
    assert_eq!(r, Err(SampleError::EmptySample));
}

#[test]
fn record_without_scores_is_an_error() {
    let lines = text_lines(&["@r1", "ACGT", "+", "IIII", "@r2", "", "+", ""]);
    let (_, r) = processed("e.fq", 10, &lines, b"@r");
    assert_eq!(r, Err(SampleError::EmptyQualityLine));
}

#[test]
fn empty_sample_is_an_error() {
    let lines = text_lines(&["@r1", "ACGT", "+", "IIII"]);
    let (_, r) = processed("z.fq", 0, &lines, b"@r");
    assert_eq!(r, Err(SampleError::EmptySample));
}

fn identical_reads(n: usize, tail: bool) -> Vec<String> {
    let mut v = Vec::new();
    for i in 0..n {
        v.push(format!("@r{}", i));
        let mut s = "ACGT".repeat(13);
        if tail {
            s.push_str(&"G".repeat(i + 1));
        }
        v.push(s);
        v.push("+".to_string());
        v.push("I".repeat(if tail { 53 + i } else { 52 }));
    }
    v
}

#[test]
fn identical_reads_are_all_duplicates() {
    let (fq, r) = processed("dup.fq", 100, &identical_reads(4, true), b"@r");
    assert_eq!(r, Ok(()));
    assert_eq!((fq.unique_reads, fq.sampled_reads), (1, 4));
    assert_eq!(fq.duplication_chart(), vec![(4, 1)]);
}

#[test]
fn heavy_repeats_fall_in_the_top_bucket() {
    let (fq, r) = processed("dup.fq", 100, &identical_reads(25, false), b"@r");
    assert_eq!(r, Ok(()));
    assert_eq!((fq.unique_reads, fq.sampled_reads), (1, 25));
    assert_eq!(fq.duplication_chart(), vec![(10, 1)]);
}

#[test]
fn distinct_reads_have_no_duplication() {
    let (fq, r) = processed("a.fq", 10, &sample_text(), b"@r");
    assert_eq!(r, Ok(()));
    assert_eq!(fq.unique_reads, fq.sampled_reads);
    assert!(fq.duplication_chart().is_empty());
}

#[test]
fn length_and_quality_charts() {
    let (fq, r) = processed("a.fq", 10, &sample_text(), b"@r");
    assert_eq!(r, Ok(()));
    assert_eq!(fq.length_charts(), vec![(1, 3), (1, 5), (1, 8)]);
    let q = fq.quality_charts().unwrap();
    assert_eq!(q.mean_distribution, vec![(1, 6), (1, 20), (1, 40)]);
    assert_eq!(q.by_position.len(), 8);
    assert_eq!(q.by_position[0], (0, 40 + 0 + 20, 3));
    assert_eq!(q.by_position[3], (3, 40 + 20, 2));
    assert_eq!(q.by_position[7], (7, 40, 1));
}

#[test]
fn long_reads_chart_every_tenth_position() {
    let lines = vec![
        "@r".to_string(),
        "A".repeat(1005),
        "+".to_string(),
        "5".repeat(1005),
    ];
    let (fq, r) = processed("long.fq", 10, &lines, b"@r");
    assert_eq!(r, Ok(()));
    assert!(fq.isLongReads);
    let q = fq.quality_charts().unwrap();
    assert_eq!(q.by_position.len(), 101);
    assert_eq!(q.by_position[100], (1000, 20, 1));
}

#[test]
fn gzip_input_gives_the_same_statistics() {
    let lines = sample_text();
    let mut text = lines.join("\n");
    text.push('\n');
    let mut enc = GzEncoder::new(Vec::new(), Compression::default());
    enc.write_all(text.as_bytes()).unwrap();
    let packed = enc.finish().unwrap();
    let unpacked: Vec<String> = BufReader::new(GzDecoder::new(&packed[..]))
        .lines()
        .map(|l| l.unwrap())
        .collect();

    let (plain, r1) = processed("a.fq", 10, &lines, text.as_bytes());
    let (gz, r2) = processed("a.fq.gz", 10, &unpacked, &packed[..2]);
    assert_eq!(r1, Ok(()));
    assert_eq!(r2, Ok(()));
    assert!(gz.gzipped && !plain.gzipped);
    assert_eq!(
        (plain.len_min, plain.len_median, plain.len_mean, plain.len_max),
        (gz.len_min, gz.len_median, gz.len_mean, gz.len_max)
    );
    assert_eq!(
        (plain.qual_min, plain.qual_median, plain.qual_mean, plain.qual_max),
        (gz.qual_min, gz.qual_median, gz.qual_mean, gz.qual_max)
    );
    assert_eq!((plain.unique_reads, plain.sampled_reads), (gz.unique_reads, gz.sampled_reads));
}

#[test]
fn partly_repeated_sample_counts_distinct_reads() {
    let lines = text_lines(&[
        "@a", "ACGT", "+", "IIII",
        "@b", "TTTT", "+", "IIII",
        "@c", "ACGT", "+", "IIII",
    ]);
    let (fq, r) = processed("p.fq", 10, &lines, b"@a");
    assert_eq!(r, Ok(()));
    assert_eq!((fq.unique_reads, fq.sampled_reads), (2, 3));
    assert_eq!(fq.duplication_chart(), vec![(2, 1)]);
}
