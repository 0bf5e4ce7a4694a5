//! The per-file sample holder and its pipeline of stages.
use crate::grouping::{
    duplicate_occurrences, duplication_histogram, histogram_below, is_grouping_of,
    is_sorted_grouping_of, lemma_group_count_is_distinct_count, read_groups, read_runs_view, repeat_buckets,
    truncated_all, value_distribution, value_runs_view, TOP_BUCKET,
};
use crate::records::{
    get_encoding, get_first_n_quality_lines_of_fastq_file, get_first_n_sequence_lines_of_fastq_file,
    is_fastq_file, is_quality_pick, is_stride_pick, looks_like_fastq, starts_with_gzip_magic,
    SEQUENCE_OFFSET,
};
use crate::stats::{
    ints_of, is_long_reads, long_reads, mean_qualities, position_entry, position_step,
    quality_by_position, record_means, seq_max, seq_min, seq_sum, summarize, LONG_READ_STEP,
};
use vstd::prelude::*;
use vstd::string::*;

verus! {

/// Why a sample could not be reduced to statistics.
#[derive(Debug, Clone, Copy, PartialEq, Eq, Structural)]
pub enum SampleError {
    /// The file has not passed every gate (regular file, readable, FASTQ).
    NotValidated,
    /// No record was sampled.
    EmptySample,
    /// A sampled record has an empty quality line.
    EmptyQualityLine,
}

/// What the caller found out about a file before any record is read.
pub struct FileProbe {
    /// The path names a regular file, not a directory.
    pub is_file: bool,
    /// The first bytes of the file (up to two).
    pub head: Vec<u8>,
    /// The first lines decode as text.
    pub readable: bool,
    /// The first lines of the (decompressed) file.
    pub first_lines: Vec<String>,
}

/// Default chart width.
pub const PLOT_WIDTH: u32 = 140;

/// Default chart height.
pub const PLOT_HEIGHT: u32 = 60;

/// The sample of one input file and everything computed from it.
#[allow(non_snake_case)]
#[derive(Debug, Clone)]
pub struct FqObject {
    pub filepath: String,
    pub number_of_records_used: usize,
    pub first_n_sequences: Vec<String>,
    pub first_n_quality: Vec<Vec<u32>>,
    pub gzipped: bool,
    pub processed: bool,
    pub isFastq: bool,
    pub isFile: bool,
    pub isReadable: bool,
    pub isLongReads: bool,
    pub plot_width: u32,
    pub plot_height: u32,
    pub qual_min: usize,
    pub qual_mean: usize,
    pub qual_median: usize,
    pub qual_max: usize,
    pub len_min: usize,
    pub len_mean: usize,
    pub len_median: usize,
    pub len_max: usize,
    /// Distinct reads after cutting each to its first fifty characters.
    pub unique_reads: usize,
    /// Reads in the sample.
    pub sampled_reads: usize,
}

/// The number of distinct reads of a sample once each is cut to its first
/// fifty characters.
pub open spec fn distinct_reads(seqs: Seq<Seq<char>>) -> nat {
    truncated_all(seqs).to_set().len()
}

/// For a non-empty sample the distinct reads number at least one and at most
/// the reads sampled, so the duplication level `100 * unique / sampled` lies
/// in (0, 100]; when the cut reads are pairwise distinct it is exactly 100.
pub proof fn lemma_duplication_level_range(seqs: Seq<Seq<char>>)
    requires
        seqs.len() > 0,
    ensures
        0 < distinct_reads(seqs) <= seqs.len(),
        truncated_all(seqs).no_duplicates() ==> distinct_reads(seqs) == seqs.len(),
{
    let t = truncated_all(seqs);
    t.lemma_cardinality_of_set();
    assert(t.to_set().contains(t[0]));
    vstd::set_lib::lemma_set_empty_equivalency_len(t.to_set());
    if t.no_duplicates() {
        t.unique_seq_to_set();
    }
}

/// The character length of each read.
pub open spec fn read_lengths(seqs: Seq<Seq<char>>) -> Seq<int> {
    seqs.map_values(|s: Seq<char>| s.len() as int)
}

/// The per-position quality chart for a set of quality lines and a longest read.
pub open spec fn is_position_chart(
    r: Seq<(usize, u128, usize)>,
    qs: Seq<Seq<u32>>,
    max_len: int,
    step: int,
) -> bool {
    &&& r.len() * step >= max_len
    &&& r.len() == 0 || (r.len() - 1) * step < max_len
    &&& forall|j: int| 0 <= j < r.len() ==> (#[trigger] r[j].0 as int, r[j].1 as int, r[j].2 as int)
        == position_entry(qs, j * step)
}

/// Charts of the quality of a sample.
pub struct QualityCharts {
    /// For positions `0, step, ...` below the longest read: the position,
    /// the sum of the scores there and the number of records reaching it.
    pub by_position: Vec<(usize, u128, usize)>,
    /// One `(records, mean quality)` pair per distinct mean quality, ascending.
    pub mean_distribution: Vec<(usize, usize)>,
}

fn read_length_list(seqs: &Vec<String>) -> (r: Vec<usize>)
    ensures
        ints_of(r@) == read_lengths(seqs.deep_view()),
{
    let mut r: Vec<usize> = Vec::new();
    let mut i: usize = 0;
    while i < seqs.len()
        invariant
            i <= seqs.len(),
            r.len() == i,
            forall|j: int| 0 <= j < i ==> #[trigger] r@[j] == seqs@[j]@.len(),
        decreases seqs.len() - i,
    {
        r.push(seqs[i].as_str().unicode_len());
        i = i + 1;
    }
    assert forall|j: int| 0 <= j < r.len() implies #[trigger] ints_of(r@)[j] == read_lengths(seqs.deep_view())[j] by {
        assert(seqs.deep_view()[j] == seqs@[j]@);
    }
    assert(ints_of(r@) =~= read_lengths(seqs.deep_view()));
    r
}

impl FqObject {
    /// A fresh, unprocessed holder for one path.
    pub fn new(filepath: String, number_of_records_to_get: usize) -> (r: Self)
        ensures
            r.filepath@ == filepath@,
            r.number_of_records_used == number_of_records_to_get,
            r.first_n_sequences@.len() == 0,
            r.first_n_quality@.len() == 0,
            !r.gzipped && !r.processed && !r.isFastq && !r.isFile && !r.isReadable && !r.isLongReads,
            r.plot_width == PLOT_WIDTH && r.plot_height == PLOT_HEIGHT,
            r.qual_min == 0 && r.qual_mean == 0 && r.qual_median == 0 && r.qual_max == 0,
            r.len_min == 0 && r.len_mean == 0 && r.len_median == 0 && r.len_max == 0,
            r.unique_reads == 0 && r.sampled_reads == 0,
    {
        FqObject {
            filepath,
            number_of_records_used: number_of_records_to_get,
            first_n_sequences: Vec::new(),
            first_n_quality: Vec::new(),
            gzipped: false,
            processed: false,
            isFastq: false,
            isFile: false,
            isReadable: false,
            isLongReads: false,
            plot_width: PLOT_WIDTH,
            plot_height: PLOT_HEIGHT,
            qual_min: 0,
            qual_mean: 0,
            qual_median: 0,
            qual_max: 0,
            len_min: 0,
            len_mean: 0,
            len_median: 0,
            len_max: 0,
            unique_reads: 0,
            sampled_reads: 0,
        }
    }

    /// Runs the gates in order: regular file, encoding, readable text, FASTQ
    /// markers. A gate is passed only when every earlier one was; a file
    /// with fewer than two leading bytes is not readable.
    pub fn pre_process(&mut self, probe: &FileProbe)
        ensures
            final(self).isFile == probe.is_file,
            final(self).gzipped == (probe.is_file && starts_with_gzip_magic(probe.head@)),
            final(self).isReadable == (probe.is_file && probe.head@.len() >= 2 && probe.readable),
            final(self).isFastq == (final(self).isReadable && looks_like_fastq(
                probe.first_lines.deep_view(),
            )),
            final(self).filepath == old(self).filepath,
            final(self).number_of_records_used == old(self).number_of_records_used,
            final(self).first_n_sequences == old(self).first_n_sequences,
            final(self).first_n_quality == old(self).first_n_quality,
            final(self).processed == old(self).processed,
    {
        self.isFile = probe.is_file;
        self.gzipped = false;
        self.isReadable = false;
        self.isFastq = false;
        if self.isFile {
            match get_encoding(probe.head.as_slice()) {
                Some(g) => {
                    self.gzipped = g;
                    self.isReadable = probe.readable;
                    if self.isReadable {
                        self.isFastq = is_fastq_file(&probe.first_lines);
                    }
                },
                None => {},
            }
        }
    }

    /// Min, positional median, truncated mean and max of the read lengths.
    pub fn length_quartiles(&mut self) -> (r: Result<(), SampleError>)
        ensures
            ({
                let ls = read_lengths(old(self).first_n_sequences.deep_view());
                &&& (r is Err <==> ls.len() == 0)
                &&& r is Err ==> r == Err::<(), SampleError>(SampleError::EmptySample) && *final(self) == *old(self)
                &&& r is Ok ==> {
                    &&& final(self).len_min == seq_min(ls)
                    &&& final(self).len_max == seq_max(ls)
                    &&& final(self).len_mean == seq_sum(ls) / (ls.len() as int)
                    &&& final(self).len_median == ls[(ls.len() / 2) as int]
                }
            }),
            final(self).first_n_sequences == old(self).first_n_sequences,
            final(self).first_n_quality == old(self).first_n_quality,
            final(self).number_of_records_used == old(self).number_of_records_used,
            final(self).isFile == old(self).isFile,
            final(self).isReadable == old(self).isReadable,
            final(self).isFastq == old(self).isFastq,
            final(self).isLongReads == old(self).isLongReads,
            final(self).processed == old(self).processed,
    {
        let lengths = read_length_list(&self.first_n_sequences);
        match summarize(&lengths) {
            None => Err(SampleError::EmptySample),
            Some(sm) => {
                self.len_min = sm.min;
                self.len_max = sm.max;
                self.len_mean = sm.mean;
                self.len_median = sm.median;
                Ok(())
            },
        }
    }

    /// Min, positional median, truncated mean and max of the per-record mean
    /// qualities.
    pub fn quality_quartiles(&mut self) -> (r: Result<(), SampleError>)
        ensures
            ({
                let qs = old(self).first_n_quality.deep_view();
                let ms = record_means(qs);
                &&& (r == Err::<(), SampleError>(SampleError::EmptySample) <==> qs.len() == 0)
                &&& (r == Err::<(), SampleError>(SampleError::EmptyQualityLine) <==> exists|k: int|
                    0 <= k < qs.len() && #[trigger] qs[k].len() == 0)
                &&& r is Err ==> *final(self) == *old(self) && (r == Err::<(), SampleError>(SampleError::EmptySample) || r
                    == Err::<(), SampleError>(SampleError::EmptyQualityLine))
                &&& r is Ok ==> {
                    &&& final(self).qual_min == seq_min(ms)
                    &&& final(self).qual_max == seq_max(ms)
                    &&& final(self).qual_mean == seq_sum(ms) / (ms.len() as int)
                    &&& final(self).qual_median == ms[(ms.len() / 2) as int]
                }
            }),
            final(self).first_n_sequences == old(self).first_n_sequences,
            final(self).first_n_quality == old(self).first_n_quality,
            final(self).len_min == old(self).len_min,
            final(self).len_max == old(self).len_max,
            final(self).len_mean == old(self).len_mean,
            final(self).len_median == old(self).len_median,
            final(self).number_of_records_used == old(self).number_of_records_used,
            final(self).isFile == old(self).isFile,
            final(self).isReadable == old(self).isReadable,
            final(self).isFastq == old(self).isFastq,
            final(self).isLongReads == old(self).isLongReads,
            final(self).processed == old(self).processed,
    {
        let ghost qs = self.first_n_quality.deep_view();
        proof {
            assert(qs.len() == self.first_n_quality@.len());
            assert forall|k: int| 0 <= k < qs.len() implies #[trigger] qs[k].len() == self.first_n_quality@[k].len() by {
                assert(qs[k] == self.first_n_quality@[k]@);
            }
        }
        if self.first_n_quality.len() == 0 {
            return Err(SampleError::EmptySample);
        }
        match mean_qualities(&self.first_n_quality) {
            None => {
                proof {
                    let k = choose|k: int| 0 <= k < self.first_n_quality@.len() && #[trigger] self.first_n_quality@[k].len() == 0;
                    assert(qs[k].len() == 0);
                }
                Err(SampleError::EmptyQualityLine)
            },
            Some(ms) => {
                proof {
                    assert(ints_of(ms@).len() == ms@.len());
                    assert(record_means(qs).len() == qs.len());
                }
                match summarize(&ms) {
                    None => Err(SampleError::EmptySample),
                    Some(sm) => {
                        self.qual_min = sm.min;
                        self.qual_max = sm.max;
                        self.qual_mean = sm.mean;
                        self.qual_median = sm.median;
                        Ok(())
                    },
                }
            },
        }
    }

    /// Counts the distinct reads, each cut to its first fifty characters,
    /// against the reads sampled; the duplication level is their ratio.
    pub fn duplication_calculation(&mut self) -> (r: Result<(), SampleError>)
        ensures
            (r is Err <==> old(self).first_n_sequences@.len() == 0),
            r is Err ==> r == Err::<(), SampleError>(SampleError::EmptySample) && *final(self) == *old(self),
            r is Ok ==> final(self).sampled_reads == old(self).first_n_sequences@.len()
                && final(self).unique_reads == distinct_reads(old(self).first_n_sequences.deep_view()),
            final(self).first_n_sequences == old(self).first_n_sequences,
            final(self).first_n_quality == old(self).first_n_quality,
            final(self).len_min == old(self).len_min,
            final(self).len_max == old(self).len_max,
            final(self).len_mean == old(self).len_mean,
            final(self).len_median == old(self).len_median,
            final(self).qual_min == old(self).qual_min,
            final(self).qual_max == old(self).qual_max,
            final(self).qual_mean == old(self).qual_mean,
            final(self).qual_median == old(self).qual_median,
            final(self).number_of_records_used == old(self).number_of_records_used,
            final(self).isFile == old(self).isFile,
            final(self).isReadable == old(self).isReadable,
            final(self).isFastq == old(self).isFastq,
            final(self).isLongReads == old(self).isLongReads,
            final(self).processed == old(self).processed,
    {
        if self.first_n_sequences.len() == 0 {
            return Err(SampleError::EmptySample);
        }
        let groups = read_groups(&self.first_n_sequences);
        proof {
            assert(read_runs_view(groups@).len() == groups@.len());
        }
        self.unique_reads = groups.len();
        self.sampled_reads = self.first_n_sequences.len();
        proof {
            lemma_group_count_is_distinct_count(
                read_runs_view(groups@),
                truncated_all(self.first_n_sequences.deep_view()),
            );
        }
        Ok(())
    }

    /// The duplication chart: for each bucket from two copies up to ten or
    /// more, the number of distinct reads (cut to fifty characters) that
    /// fall in it; empty when no read occurs twice.
    pub fn duplication_chart(&self) -> (r: Vec<(usize, usize)>)
        ensures
            exists|groups: Seq<(int, Seq<char>)>|
                is_grouping_of(groups, truncated_all(self.first_n_sequences.deep_view()))
                && r@.map_values(|e: (usize, usize)| (e.0 as int, e.1 as int)) == #[trigger] histogram_below(
                    repeat_buckets(groups),
                    TOP_BUCKET as int + 1,
                ),
    {
        let groups = read_groups(&self.first_n_sequences);
        let occ = duplicate_occurrences(&groups);
        let r = duplication_histogram(&occ);
        proof {
            assert(histogram_below(repeat_buckets(read_runs_view(groups@)), TOP_BUCKET as int + 1) == histogram_below(ints_of(occ@), TOP_BUCKET as int + 1));
        }
        r
    }

    /// The read-length chart: one `(reads, length)` pair per distinct read
    /// length, in ascending order of length.
    pub fn length_charts(&self) -> (r: Vec<(usize, usize)>)
        ensures
            exists|lengths: Seq<usize>|
                ints_of(lengths) == read_lengths(self.first_n_sequences.deep_view())
                && #[trigger] is_sorted_grouping_of(value_runs_view(r@), lengths),
    {
        let lengths = read_length_list(&self.first_n_sequences);
        value_distribution(&lengths)
    }

    /// The quality charts: per-position figures (every base, or every tenth
    /// in long-read mode) up to the longest read, and the distribution of
    /// the per-record mean qualities. `None` when a record has no score.
    pub fn quality_charts(&self) -> (r: Option<QualityCharts>)
        ensures
            r is None <==> exists|k: int|
                0 <= k < self.first_n_quality@.len() && #[trigger] self.first_n_quality@[k].len() == 0,
            r is Some ==> ({
                let c = r->0;
                &&& is_position_chart(
                    c.by_position@,
                    self.first_n_quality.deep_view(),
                    self.len_max as int,
                    if long_reads(self.len_max as int) { LONG_READ_STEP as int } else { 1 },
                )
                &&& exists|ms: Seq<usize>|
                    ints_of(ms) == record_means(self.first_n_quality.deep_view())
                    && #[trigger] is_sorted_grouping_of(value_runs_view(c.mean_distribution@), ms)
            }),
    {
        let means = mean_qualities(&self.first_n_quality);
        if means.is_none() {
            return None;
        }
        let ms = means.unwrap();
        let step = position_step(self.len_max);
        let by_position = quality_by_position(&self.first_n_quality, self.len_max, step);
        let mean_distribution = value_distribution(&ms);
        let c = QualityCharts { by_position, mean_distribution };
        proof {
            assert(ints_of(ms@) == record_means(self.first_n_quality.deep_view()));
            assert(is_sorted_grouping_of(value_runs_view(c.mean_distribution@), ms@));
            let st: int = if long_reads(self.len_max as int) { LONG_READ_STEP as int } else { 1 };
            assert(st == step as int);
            assert(is_position_chart(c.by_position@, self.first_n_quality.deep_view(), self.len_max as int, step as int));
            assert(exists|m: Seq<usize>|
                ints_of(m) == record_means(self.first_n_quality.deep_view())
                && #[trigger] is_sorted_grouping_of(value_runs_view(c.mean_distribution@), m));
        }
        let r = Some(c);
        assert(r->0 == c);
        r
    }

    /// Every gate has been passed: regular file, readable text, FASTQ markers.
    pub open spec fn gates_passed(&self) -> bool {
        self.isFile && self.isReadable && self.isFastq
    }

    /// Takes the sample out of the first lines of the file (up to four per
    /// record) and computes every statistic over it. Refused before the
    /// gates are passed; fails on a sample without records and on a record
    /// without scores.
    pub fn process_multi(&mut self, lines: &Vec<String>) -> (r: Result<(), SampleError>)
        ensures
            (r == Err::<(), SampleError>(SampleError::NotValidated) <==> !old(self).gates_passed()),
            !old(self).gates_passed() ==> *final(self) == *old(self),
            old(self).gates_passed() ==> ({
                let n = old(self).number_of_records_used as int;
                let seqs = final(self).first_n_sequences.deep_view();
                let qs = final(self).first_n_quality.deep_view();
                &&& is_stride_pick(seqs, lines.deep_view(), SEQUENCE_OFFSET as int, n)
                &&& is_quality_pick(qs, lines.deep_view(), n)
                &&& (r == Err::<(), SampleError>(SampleError::EmptySample) <==> seqs.len() == 0 || qs.len() == 0)
                &&& (r == Err::<(), SampleError>(SampleError::EmptyQualityLine) <==> seqs.len() > 0
                    && exists|k: int| 0 <= k < qs.len() && #[trigger] qs[k].len() == 0)
            }),
            r is Ok ==> ({
                let seqs = final(self).first_n_sequences.deep_view();
                let ls = read_lengths(seqs);
                let ms = record_means(final(self).first_n_quality.deep_view());
                &&& final(self).processed
                &&& final(self).len_min == seq_min(ls)
                &&& final(self).len_max == seq_max(ls)
                &&& final(self).len_mean == seq_sum(ls) / (ls.len() as int)
                &&& final(self).len_median == ls[(ls.len() / 2) as int]
                &&& final(self).isLongReads == long_reads(final(self).len_max as int)
                &&& final(self).qual_min == seq_min(ms)
                &&& final(self).qual_max == seq_max(ms)
                &&& final(self).qual_mean == seq_sum(ms) / (ms.len() as int)
                &&& final(self).qual_median == ms[(ms.len() / 2) as int]
                &&& final(self).sampled_reads == seqs.len()
                &&& final(self).unique_reads == distinct_reads(seqs)
            }),
    {
        if !(self.isFile && self.isReadable && self.isFastq) {
            return Err(SampleError::NotValidated);
        }
        self.first_n_sequences = get_first_n_sequence_lines_of_fastq_file(lines, self.number_of_records_used);
        self.first_n_quality = get_first_n_quality_lines_of_fastq_file(lines, self.number_of_records_used);
        proof {
            assert(read_lengths(self.first_n_sequences.deep_view()).len() == self.first_n_sequences.deep_view().len());
            assert(self.first_n_sequences.deep_view().len() == self.first_n_sequences@.len());
        }
        match self.length_quartiles() {
            Err(e) => {
                return Err(e);
            },
            Ok(()) => {},
        }
        self.isLongReads = is_long_reads(self.len_max);
        match self.quality_quartiles() {
            Err(e) => {
                return Err(e);
            },
            Ok(()) => {},
        }
        match self.duplication_calculation() {
            Err(e) => {
                return Err(e);
            },
            Ok(()) => {},
        }
        self.processed = true;
        Ok(())
    }
}

} // verus!
