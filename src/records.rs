//! Recognition of the input and extraction of the fields of each record.
use vstd::prelude::*;
use vstd::std_specs::iter::IteratorSpec;
use vstd::string::*;

verus! {

/// First magic byte of a gzip stream.
pub const GZIP_MAGIC_0: u8 = 0x1f;

/// Second magic byte of a gzip stream.
pub const GZIP_MAGIC_1: u8 = 0x8b;

/// Offset of the sequence line inside a four-line record.
pub const SEQUENCE_OFFSET: usize = 1;

/// Offset of the quality line inside a four-line record.
pub const QUALITY_OFFSET: usize = 3;

/// The file starts with the gzip magic bytes.
pub open spec fn starts_with_gzip_magic(head: Seq<u8>) -> bool {
    head.len() >= 2 && head[0] == GZIP_MAGIC_0 && head[1] == GZIP_MAGIC_1
}

/// Classifies a file by its leading bytes: `Some(true)` for gzip, `Some(false)`
/// for anything else, `None` when fewer than two bytes could be read.
pub fn get_encoding(head: &[u8]) -> (r: Option<bool>)
    ensures
        r is None <==> head@.len() < 2,
        r matches Some(g) ==> g == starts_with_gzip_magic(head@),
{
    if head.len() < 2 {
        None
    } else {
        Some(head[0] == GZIP_MAGIC_0 && head[1] == GZIP_MAGIC_1)
    }
}

/// A line begins with the character `c` (an empty line begins with nothing).
pub open spec fn line_starts_with(line: Seq<char>, c: char) -> bool {
    line.len() > 0 && line[0] == c
}

/// The first lines follow the FASTQ layout: a header line starting with `@`
/// and, two lines below, a separator line starting with `+`.
pub open spec fn looks_like_fastq(lines: Seq<Seq<char>>) -> bool {
    lines.len() >= 3 && line_starts_with(lines[0], '@') && line_starts_with(lines[2], '+')
}

fn first_char_is(line: &String, c: char) -> (r: bool)
    ensures
        r == line_starts_with(line@, c),
{
    let s = line.as_str();
    if s.unicode_len() == 0 {
        false
    } else {
        s.get_char(0) == c
    }
}

/// Checks the FASTQ markers on the first lines of a file.
pub fn is_fastq_file(lines: &Vec<String>) -> (r: bool)
    ensures
        r == looks_like_fastq(lines.deep_view()),
{
    if lines.len() < 3 {
        return false;
    }
    let first = first_char_is(&lines[0], '@');
    let second = first_char_is(&lines[2], '+');
    first && second
}

/// `r` holds, in order, the lines at `offset`, `offset + 4`, ... of `lines`,
/// stopping after `n` of them or at the end of `lines`.
pub open spec fn is_stride_pick(
    r: Seq<Seq<char>>,
    lines: Seq<Seq<char>>,
    offset: int,
    n: int,
) -> bool {
    &&& r.len() <= n
    &&& 4 * r.len() + offset <= lines.len() + 3
    &&& forall|k: int| 0 <= k < r.len() ==> #[trigger] r[k] == lines[4 * k + offset]
    &&& r.len() == n || 4 * r.len() + offset >= lines.len()
}

fn pick_stride(lines: &Vec<String>, offset: usize, n: usize) -> (r: Vec<String>)
    requires
        offset < 4,
    ensures
        is_stride_pick(r.deep_view(), lines.deep_view(), offset as int, n as int),
{
    let mut r: Vec<String> = Vec::new();
    let mut k: usize = 0;
    let mut idx: u128 = offset as u128;
    while k < n && idx < lines.len() as u128
        invariant
            offset < 4,
            k <= n,
            idx == 4 * k + offset,
            k == 0 || 4 * (k - 1) + offset < lines.len(),
            r.len() == k,
            forall|j: int| 0 <= j < k ==> 4 * j + offset < lines.len() && #[trigger] r@[j]@ == lines@[4 * j + offset]@,
        decreases n - k,
    {
        let line = lines[idx as usize].clone();
        r.push(line);
        k = k + 1;
        idx = idx + 4;
    }
    assert(forall|j: int| 0 <= j < r.len() ==> #[trigger] r.deep_view()[j] == r@[j]@);
    assert(forall|j: int| 0 <= j < lines.len() ==> #[trigger] lines.deep_view()[j] == lines@[j]@);
    r
}

/// The sequence lines of the first `n` records (fewer where `lines` ends first).
pub fn get_first_n_sequence_lines_of_fastq_file(lines: &Vec<String>, n: usize) -> (r: Vec<String>)
    ensures
        is_stride_pick(r.deep_view(), lines.deep_view(), SEQUENCE_OFFSET as int, n as int),
{
    pick_stride(lines, SEQUENCE_OFFSET, n)
}

/// Phred+33 offset: the code point that stands for quality zero.
pub const PHRED_OFFSET: u32 = 33;

/// Quality score of one character under Phred+33; characters below `'!'`,
/// which carry no valid score, count as zero.
pub open spec fn qual_of(c: char) -> u32 {
    if (c as u32) >= PHRED_OFFSET {
        ((c as u32) - PHRED_OFFSET) as u32
    } else {
        0
    }
}

/// Quality scores of a whole quality line, one per character.
pub open spec fn quals_of(line: Seq<char>) -> Seq<u32> {
    line.map_values(|c: char| qual_of(c))
}

/// Decodes one quality character (Phred+33, saturating at zero).
pub fn char_to_qual(c: char) -> (r: u32)
    ensures
        r == qual_of(c),
{
    let code = c as u32;
    if code >= PHRED_OFFSET {
        code - PHRED_OFFSET
    } else {
        0
    }
}

/// Decodes a quality line into one score per character.
pub fn quality_vector_from_line(line: String) -> (r: Vec<u32>)
    ensures
        r@ == quals_of(line@),
{
    let mut r: Vec<u32> = Vec::new();
    let mut it = line.as_str().chars();
    let ghost whole = line@;
    let ghost mut i: int = 0;
    loop
        invariant
            0 <= i <= whole.len(),
            it.remaining() == whole.subrange(i, whole.len() as int),
            r@ == quals_of(whole.subrange(0, i)),
        ensures
            r@ == quals_of(whole),
        decreases whole.len() - i,
    {
        match it.next() {
            Some(c) => {
                proof {
                    assert(c == whole[i]);
                }
                r.push(char_to_qual(c));
                proof {
                    assert(whole.subrange(0, i + 1) == whole.subrange(0, i).push(c));
                    i = i + 1;
                }
                assert(r@ =~= quals_of(whole.subrange(0, i)));
            },
            None => {
                assert(whole.subrange(0, i) == whole);
                break;
            },
        }
    }
    r
}

/// `q` holds the decoded quality lines of the first `n` records of `lines`
/// (fewer where `lines` ends first).
pub open spec fn is_quality_pick(q: Seq<Seq<u32>>, lines: Seq<Seq<char>>, n: int) -> bool {
    &&& q.len() <= n
    &&& 4 * q.len() <= lines.len()
    &&& forall|k: int| 0 <= k < q.len() ==> #[trigger] q[k] == quals_of(lines[4 * k + 3])
    &&& q.len() == n || 4 * q.len() + 3 >= lines.len()
}

/// The decoded quality lines of the first `n` records (fewer where `lines`
/// ends first).
pub fn get_first_n_quality_lines_of_fastq_file(lines: &Vec<String>, n: usize) -> (r: Vec<Vec<u32>>)
    ensures
        is_quality_pick(r.deep_view(), lines.deep_view(), n as int),
{
    let picked = pick_stride(lines, QUALITY_OFFSET, n);
    let mut r: Vec<Vec<u32>> = Vec::new();
    let mut k: usize = 0;
    while k < picked.len()
        invariant
            k <= picked.len(),
            r.len() == k,
            is_stride_pick(picked.deep_view(), lines.deep_view(), QUALITY_OFFSET as int, n as int),
            forall|j: int| 0 <= j < k ==> #[trigger] r@[j]@ == quals_of(picked@[j]@),
        decreases picked.len() - k,
    {
        let q = quality_vector_from_line(picked[k].clone());
        r.push(q);
        k = k + 1;
    }
    assert(lines.deep_view().len() == lines@.len());
    assert(picked.deep_view().len() == picked@.len());
    assert forall|j: int| 0 <= j < r.len() implies #[trigger] r@[j]@ == quals_of(lines@[4 * j + 3]@) by {
        assert(picked.deep_view()[j] == picked@[j]@);
        assert(lines.deep_view()[4 * j + 3] == lines@[4 * j + 3]@);
    }
    assert forall|j: int| 0 <= j < r.len() implies #[trigger] r.deep_view()[j] == quals_of(lines.deep_view()[4 * j + 3]) by {
        assert(r.deep_view()[j] == r@[j]@);
        assert(lines.deep_view()[4 * j + 3] == lines@[4 * j + 3]@);
    }
    r
}

/// In a sample made of whole four-line records, every record picked for its
/// sequence line is also picked for its quality line: the two lists have the
/// same length.
pub proof fn lemma_fields_pair_up(
    lines: Seq<Seq<char>>,
    n: int,
    seqs: Seq<Seq<char>>,
    quals: Seq<Seq<u32>>,
)
    requires
        lines.len() % 4 == 0,
        is_stride_pick(seqs, lines, SEQUENCE_OFFSET as int, n),
        is_quality_pick(quals, lines, n),
    ensures
        seqs.len() == quals.len(),
{
    let m = lines.len() / 4;
    assert(lines.len() == 4 * m);
}

} // verus!
