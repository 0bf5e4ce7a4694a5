//! Reductions of a sample to summary numbers.
use vstd::prelude::*;

verus! {

/// Sum of a sequence of integers.
pub open spec fn seq_sum(s: Seq<int>) -> int
    decreases s.len(),
{
    if s.len() == 0 {
        0
    } else {
        seq_sum(s.drop_last()) + s.last()
    }
}

/// Largest element of a non-empty sequence (zero for an empty one).
pub open spec fn seq_max(s: Seq<int>) -> int
    decreases s.len(),
{
    if s.len() == 0 {
        0
    } else if s.len() == 1 {
        s[0]
    } else {
        let m = seq_max(s.drop_last());
        if s.last() > m {
            s.last()
        } else {
            m
        }
    }
}

/// Smallest element of a non-empty sequence (zero for an empty one).
pub open spec fn seq_min(s: Seq<int>) -> int
    decreases s.len(),
{
    if s.len() == 0 {
        0
    } else if s.len() == 1 {
        s[0]
    } else {
        let m = seq_min(s.drop_last());
        if s.last() < m {
            s.last()
        } else {
            m
        }
    }
}

/// The values of a `usize` sequence as integers.
pub open spec fn ints_of(s: Seq<usize>) -> Seq<int> {
    s.map_values(|x: usize| x as int)
}

/// The scores of a `u32` sequence as integers.
pub open spec fn ints_of_u32(s: Seq<u32>) -> Seq<int> {
    s.map_values(|x: u32| x as int)
}

/// The summary numbers of a sample: extremes, truncated mean, and the value
/// found halfway through the sample in sampling order.
pub struct Summary {
    pub min: usize,
    pub median: usize,
    pub mean: usize,
    pub max: usize,
}

/// `r` summarises the non-empty sample `s`.
pub open spec fn summarizes(r: Summary, s: Seq<usize>) -> bool {
    &&& r.min == seq_min(ints_of(s))
    &&& r.max == seq_max(ints_of(s))
    &&& r.mean == seq_sum(ints_of(s)) / (s.len() as int)
    &&& r.median == s[(s.len() / 2) as int]
}

proof fn lemma_ints_prefix(s: Seq<usize>, i: int)
    requires
        0 <= i < s.len(),
    ensures
        ints_of(s.subrange(0, i + 1)).drop_last() == ints_of(s.subrange(0, i)),
        ints_of(s.subrange(0, i + 1)).last() == s[i] as int,
        ints_of(s.subrange(0, i + 1)).len() == i + 1,
{
    assert(ints_of(s.subrange(0, i + 1)).drop_last() =~= ints_of(s.subrange(0, i)));
}

/// Min, positional median, truncated mean and max of a sample; `None` for an
/// empty sample, which has none of them.
pub fn summarize(values: &Vec<usize>) -> (r: Option<Summary>)
    ensures
        r is None <==> values.len() == 0,
        r matches Some(sm) ==> summarizes(sm, values@),
{
    let n = values.len();
    if n == 0 {
        return None;
    }
    let mut lo: usize = values[0];
    let mut hi: usize = values[0];
    let mut total: u128 = values[0] as u128;
    let mut i: usize = 1;
    proof {
        lemma_ints_prefix(values@, 0);
        assert(ints_of(values@.subrange(0, 0)) =~= Seq::<int>::empty());
        assert(seq_sum(ints_of(values@.subrange(0, 0))) == 0);
    }
    while i < n
        invariant
            n == values.len(),
            1 <= i <= n,
            lo == seq_min(ints_of(values@.subrange(0, i as int))),
            hi == seq_max(ints_of(values@.subrange(0, i as int))),
            total == seq_sum(ints_of(values@.subrange(0, i as int))),
            total <= i * (usize::MAX as int),
        decreases n - i,
    {
        let v = values[i];
        proof {
            lemma_ints_prefix(values@, i as int);
        }
        if v < lo {
            lo = v;
        }
        if v > hi {
            hi = v;
        }
        proof {
            assert(total + v <= (i + 1) * (usize::MAX as int)) by (nonlinear_arith)
                requires
                    total <= i * (usize::MAX as int),
                    v <= usize::MAX,
            ;
            assert((i + 1) * (usize::MAX as int) <= (u64::MAX as int) * (u64::MAX as int)) by (nonlinear_arith)
                requires
                    i + 1 <= usize::MAX,
                    usize::MAX <= u64::MAX,
            ;
        }
        total = total + v as u128;
        i = i + 1;
    }
    assert(values@.subrange(0, n as int) =~= values@);
    proof {
        assert((total as int) / (n as int) <= usize::MAX) by (nonlinear_arith)
            requires
                total <= n * (usize::MAX as int),
                n >= 1,
        ;
    }
    let mean = (total / (n as u128)) as usize;
    Some(Summary { min: lo, median: values[n / 2], mean, max: hi })
}

/// Truncated mean of one record's quality scores.
pub open spec fn record_mean(q: Seq<u32>) -> int {
    seq_sum(ints_of_u32(q)) / (q.len() as int)
}

/// Truncated mean of each record's quality scores, in record order.
pub open spec fn record_means(qs: Seq<Seq<u32>>) -> Seq<int> {
    qs.map_values(|q: Seq<u32>| record_mean(q))
}

proof fn lemma_ints_u32_prefix(s: Seq<u32>, i: int)
    requires
        0 <= i < s.len(),
    ensures
        ints_of_u32(s.subrange(0, i + 1)).drop_last() == ints_of_u32(s.subrange(0, i)),
        ints_of_u32(s.subrange(0, i + 1)).last() == s[i] as int,
{
    assert(ints_of_u32(s.subrange(0, i + 1)).drop_last() =~= ints_of_u32(s.subrange(0, i)));
}

/// Truncated mean of one record's scores; `None` for a record without any.
pub fn mean_quality(q: &Vec<u32>) -> (r: Option<u32>)
    ensures
        r is None <==> q.len() == 0,
        r matches Some(m) ==> m == record_mean(q@),
{
    let n = q.len();
    if n == 0 {
        return None;
    }
    let mut total: u128 = 0;
    let mut i: usize = 0;
    proof {
        assert(ints_of_u32(q@.subrange(0, 0)) =~= Seq::<int>::empty());
    }
    while i < n
        invariant
            n == q.len(),
            i <= n,
            total == seq_sum(ints_of_u32(q@.subrange(0, i as int))),
            total <= i * (u32::MAX as int),
        decreases n - i,
    {
        let v = q[i];
        proof {
            lemma_ints_u32_prefix(q@, i as int);
            assert(total + v <= (i + 1) * (u32::MAX as int)) by (nonlinear_arith)
                requires
                    total <= i * (u32::MAX as int),
                    v <= u32::MAX,
            ;
            assert((i + 1) * (u32::MAX as int) <= (usize::MAX as int) * (u32::MAX as int)) by (nonlinear_arith)
                requires
                    i + 1 <= usize::MAX,
            ;
        }
        total = total + v as u128;
        i = i + 1;
    }
    assert(q@.subrange(0, n as int) =~= q@);
    proof {
        assert((total as int) / (n as int) <= u32::MAX) by (nonlinear_arith)
            requires
                total <= n * (u32::MAX as int),
                n >= 1,
        ;
    }
    Some((total / (n as u128)) as u32)
}

/// The mean quality of each record; `None` when some record has no score.
pub fn mean_qualities(quals: &Vec<Vec<u32>>) -> (r: Option<Vec<usize>>)
    ensures
        r is None <==> exists|k: int| 0 <= k < quals.len() && #[trigger] quals@[k].len() == 0,
        r matches Some(ms) ==> ints_of(ms@) == record_means(quals.deep_view()),
{
    let mut ms: Vec<usize> = Vec::new();
    let mut k: usize = 0;
    while k < quals.len()
        invariant
            k <= quals.len(),
            ms.len() == k,
            forall|j: int| #![trigger quals@[j]] 0 <= j < k ==> quals@[j].len() > 0 && ms@[j] == record_mean(quals@[j]@),
        decreases quals.len() - k,
    {
        match mean_quality(&quals[k]) {
            Some(m) => {
                ms.push(m as usize);
            },
            None => {
                return None;
            },
        }
        k = k + 1;
    }
    assert forall|j: int| 0 <= j < quals.len() implies #[trigger] ints_of(ms@)[j] == record_means(quals.deep_view())[j] by {
        assert(quals.deep_view()[j] == quals@[j]@);
    }
    assert(ints_of(ms@) =~= record_means(quals.deep_view()));
    Some(ms)
}

/// How many times `x` occurs in `s`.
pub open spec fn occurrences(s: Seq<int>, x: int) -> nat
    decreases s.len(),
{
    if s.len() == 0 {
        0
    } else {
        occurrences(s.drop_last(), x) + if s.last() == x {
            1nat
        } else {
            0nat
        }
    }
}

/// Counts the elements of `values` equal to `item`.
pub fn count_number_of_occurence(values: &Vec<usize>, item: usize) -> (r: usize)
    ensures
        r == occurrences(ints_of(values@), item as int),
{
    let mut c: usize = 0;
    let mut i: usize = 0;
    proof {
        assert(ints_of(values@.subrange(0, 0)) =~= Seq::<int>::empty());
    }
    while i < values.len()
        invariant
            i <= values.len(),
            c <= i,
            c == occurrences(ints_of(values@.subrange(0, i as int)), item as int),
        decreases values.len() - i,
    {
        proof {
            lemma_ints_prefix(values@, i as int);
        }
        if values[i] == item {
            c = c + 1;
        }
        i = i + 1;
    }
    assert(values@.subrange(0, values.len() as int) =~= values@);
    c
}

/// How many records hold at least `len` scores.
pub open spec fn count_reaching(qs: Seq<Seq<u32>>, len: int) -> nat
    decreases qs.len(),
{
    if qs.len() == 0 {
        0
    } else {
        count_reaching(qs.drop_last(), len) + if qs.last().len() >= len {
            1nat
        } else {
            0nat
        }
    }
}

/// Sum, over the records that have one, of the score at position `index`.
pub open spec fn sum_at(qs: Seq<Seq<u32>>, index: int) -> int
    decreases qs.len(),
{
    if qs.len() == 0 {
        0
    } else {
        sum_at(qs.drop_last(), index) + if 0 <= index < qs.last().len() {
            qs.last()[index] as int
        } else {
            0
        }
    }
}

proof fn lemma_records_prefix(qs: Seq<Seq<u32>>, i: int)
    requires
        0 <= i < qs.len(),
    ensures
        qs.subrange(0, i + 1).drop_last() == qs.subrange(0, i),
        qs.subrange(0, i + 1).last() == qs[i],
{
    assert(qs.subrange(0, i + 1).drop_last() =~= qs.subrange(0, i));
}

/// Counts the records that hold at least `length_to_test` scores.
pub fn sub_vector_above_this_length(quals: &Vec<Vec<u32>>, length_to_test: usize) -> (r: usize)
    ensures
        r == count_reaching(quals.deep_view(), length_to_test as int),
{
    let ghost qs = quals.deep_view();
    let mut c: usize = 0;
    let mut i: usize = 0;
    while i < quals.len()
        invariant
            qs == quals.deep_view(),
            i <= quals.len(),
            c <= i,
            c == count_reaching(qs.subrange(0, i as int), length_to_test as int),
        decreases quals.len() - i,
    {
        proof {
            lemma_records_prefix(qs, i as int);
            assert(qs[i as int] == quals@[i as int]@);
        }
        if quals[i].len() >= length_to_test {
            c = c + 1;
        }
        i = i + 1;
    }
    assert(qs.subrange(0, i as int) =~= qs);
    c
}

/// Sums the score at position `index` over the records that reach it.
pub fn sub_vector_sum_at_index(quals: &Vec<Vec<u32>>, index: usize) -> (r: u128)
    ensures
        r == sum_at(quals.deep_view(), index as int),
{
    let ghost qs = quals.deep_view();
    let mut total: u128 = 0;
    let mut i: usize = 0;
    while i < quals.len()
        invariant
            qs == quals.deep_view(),
            i <= quals.len(),
            total <= i * (u32::MAX as int),
            total == sum_at(qs.subrange(0, i as int), index as int),
        decreases quals.len() - i,
    {
        proof {
            lemma_records_prefix(qs, i as int);
            assert(qs[i as int] == quals@[i as int]@);
            assert((i + 1) * (u32::MAX as int) <= (usize::MAX as int) * (u32::MAX as int)) by (nonlinear_arith)
                requires
                    i + 1 <= usize::MAX,
            ;
        }
        if index < quals[i].len() {
            let v = quals[i][index];
            proof {
                assert(total + v <= (i + 1) * (u32::MAX as int)) by (nonlinear_arith)
                    requires
                        total <= i * (u32::MAX as int),
                        v <= u32::MAX,
                ;
            }
            total = total + v as u128;
        } else {
            proof {
                assert(total <= (i + 1) * (u32::MAX as int)) by (nonlinear_arith)
                    requires
                        total <= i * (u32::MAX as int),
                ;
            }
        }
        i = i + 1;
    }
    assert(qs.subrange(0, i as int) =~= qs);
    total
}

/// Read length from which a sample counts as long reads.
pub const LONG_READ_LENGTH: usize = 1000;

/// Spacing of the positions charted for long reads.
pub const LONG_READ_STEP: usize = 10;

/// A sample whose longest read reaches `LONG_READ_LENGTH` is a long-read sample.
pub open spec fn long_reads(max_len: int) -> bool {
    max_len >= LONG_READ_LENGTH
}

/// Whether a sample with this longest read is a long-read sample.
pub fn is_long_reads(max_len: usize) -> (r: bool)
    ensures
        r == long_reads(max_len as int),
{
    max_len >= LONG_READ_LENGTH
}

/// Spacing of the charted positions: every tenth base for long reads,
/// every base otherwise.
pub fn position_step(max_len: usize) -> (r: usize)
    ensures
        long_reads(max_len as int) ==> r == LONG_READ_STEP,
        !long_reads(max_len as int) ==> r == 1,
{
    if is_long_reads(max_len) {
        LONG_READ_STEP
    } else {
        1
    }
}

/// The entry of the per-position quality chart at position `p`: the
/// position, the sum of the scores found there, and the number of records
/// that reach it.
pub open spec fn position_entry(qs: Seq<Seq<u32>>, p: int) -> (int, int, int) {
    (p, sum_at(qs, p), count_reaching(qs, p + 1) as int)
}

/// Per-position quality figures for positions `0, step, 2 * step, ...`
/// below `max_len`.
pub fn quality_by_position(quals: &Vec<Vec<u32>>, max_len: usize, step: usize) -> (r: Vec<(usize, u128, usize)>)
    requires
        step > 0,
    ensures
        r.len() * step >= max_len,
        r.len() == 0 || (r.len() - 1) * step < max_len,
        forall|j: int| 0 <= j < r.len() ==> (#[trigger] r@[j].0 as int, r@[j].1 as int, r@[j].2 as int)
            == position_entry(quals.deep_view(), j * step),
{
    let mut r: Vec<(usize, u128, usize)> = Vec::new();
    let mut p: usize = 0;
    proof {
        assert(0 * step == 0) by (nonlinear_arith);
    }
    while p < max_len
        invariant
            step > 0,
            p == r.len() * step,
            r.len() == 0 || (r.len() - 1) * step < max_len,
            forall|j: int| 0 <= j < r.len() ==> (#[trigger] r@[j].0 as int, r@[j].1 as int, r@[j].2 as int)
                == position_entry(quals.deep_view(), j * step),
        decreases usize::MAX - p,
    {
        let total = sub_vector_sum_at_index(quals, p);
        let reach = sub_vector_above_this_length(quals, p + 1);
        proof {
            assert((r.len() + 1) * step == r.len() * step + step) by (nonlinear_arith);
        }
        r.push((p, total, reach));
        if p > usize::MAX - step {
            proof {
                assert(r.len() * step >= max_len);
            }
            return r;
        }
        p = p + step;
    }
    r
}

} // verus!
