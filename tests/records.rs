use rsfqc::records::{
    char_to_qual, get_encoding, get_first_n_quality_lines_of_fastq_file,
    get_first_n_sequence_lines_of_fastq_file, is_fastq_file, quality_vector_from_line,
};

fn lines(v: &[&str]) -> Vec<String> {
    v.iter().map(|s| s.to_string()).collect()
}

#[test]
fn gzip_magic_is_detected() {
    assert_eq!(get_encoding(&[0x1f, 0x8b]), Some(true));
    assert_eq!(get_encoding(&[0x1f, 0x8b, 0x08, 0x00, 0x41]), Some(true));
}

#[test]
fn other_leading_bytes_are_plain_text() {
    assert_eq!(get_encoding(b"@SEQ"), Some(false));
    assert_eq!(get_encoding(&[0x8b, 0x1f]), Some(false));
    assert_eq!(get_encoding(&[0x1f, 0x00]), Some(false));
}

#[test]
fn fewer_than_two_bytes_have_no_encoding() {
    assert_eq!(get_encoding(&[]), None);
    assert_eq!(get_encoding(&[0x1f]), None);
}

#[test]
fn fastq_markers_are_accepted() {
    assert!(is_fastq_file(&lines(&["@r1", "ACGT", "+", "IIII"])));
    assert!(is_fastq_file(&lines(&["@", "", "+r1"])));
}

#[test]
fn missing_markers_are_rejected() {
    assert!(!is_fastq_file(&lines(&[">r1", "ACGT", "+", "IIII"])));
    assert!(!is_fastq_file(&lines(&["@r1", "ACGT", "-", "IIII"])));
    assert!(!is_fastq_file(&lines(&["@r1", "+", "ACGT"])));
}

#[test]
fn empty_marker_lines_are_rejected() {
    assert!(!is_fastq_file(&lines(&["", "ACGT", "+", "IIII"])));
    assert!(!is_fastq_file(&lines(&["@r1", "ACGT", "", "IIII"])));
}

#[test]
fn too_few_lines_are_rejected() {
    assert!(!is_fastq_file(&lines(&[])));
    assert!(!is_fastq_file(&lines(&["@r1", "ACGT"])));
}

#[test]
fn phred_decoding_of_known_characters() {
    assert_eq!(char_to_qual('!'), 0);
    assert_eq!(char_to_qual('5'), 20);
    assert_eq!(char_to_qual('I'), 40);
}

#[test]
fn characters_below_phred_range_saturate_at_zero() {
    assert_eq!(char_to_qual(' '), 0);
    assert_eq!(char_to_qual('\n'), 0);
}

#[test]
fn quality_line_decodes_per_character() {
    assert_eq!(quality_vector_from_line("!5I".to_string()), vec![0, 20, 40]);
    assert_eq!(quality_vector_from_line(String::new()), Vec::<u32>::new());
}

#[test]
fn sequence_lines_follow_the_record_stride() {
    let l = lines(&["@a", "AAA", "+", "III", "@b", "CC", "+", "!!", "@c", "G", "+", "5"]);
    assert_eq!(get_first_n_sequence_lines_of_fastq_file(&l, 3), lines(&["AAA", "CC", "G"]));
    assert_eq!(get_first_n_sequence_lines_of_fastq_file(&l, 2), lines(&["AAA", "CC"]));
    assert_eq!(get_first_n_sequence_lines_of_fastq_file(&l, 10), lines(&["AAA", "CC", "G"]));
}

#[test]
fn quality_lines_follow_the_record_stride() {
    let l = lines(&["@a", "AAA", "+", "III", "@b", "CC", "+", "!!"]);
    assert_eq!(
        get_first_n_quality_lines_of_fastq_file(&l, 5),
        vec![vec![40, 40, 40], vec![0, 0]]
    );
}

#[test]
fn whole_records_give_as_many_sequences_as_qualities() {
    let l = lines(&["@a", "AAA", "+", "III", "@b", "CC", "+", "!!"]);
    for n in 0..4 {
        let s = get_first_n_sequence_lines_of_fastq_file(&l, n);
        let q = get_first_n_quality_lines_of_fastq_file(&l, n);
        assert_eq!(s.len(), q.len());
    }
}

#[test]
fn short_file_yields_only_available_records() {
    let l = lines(&["@a", "ACGT", "+"]);
    assert!(is_fastq_file(&l));
    assert_eq!(get_first_n_sequence_lines_of_fastq_file(&l, 3), lines(&["ACGT"]));
    assert_eq!(get_first_n_quality_lines_of_fastq_file(&l, 3), Vec::<Vec<u32>>::new());
}
