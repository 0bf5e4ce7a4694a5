//! Grouping of equal items: sorting, runs of equal neighbours, and the
//! duplication and distribution figures built on them.
use itertools::Itertools;
use vstd::prelude::*;
use vstd::string::*;
use crate::stats::{count_number_of_occurence, ints_of, occurrences};

verus! {

/// `count` copies of `key`.
pub open spec fn repeat<A>(count: int, key: A) -> Seq<A> {
    Seq::new(count as nat, |_i: int| key)
}

/// The sequence that a list of `(count, key)` runs stands for.
pub open spec fn expand<A>(runs: Seq<(int, A)>) -> Seq<A>
    decreases runs.len(),
{
    if runs.len() == 0 {
        Seq::empty()
    } else {
        expand(runs.drop_last()) + repeat(runs.last().0, runs.last().1)
    }
}

/// `runs` is the run-length encoding of `s`: each run is one maximal block
/// of equal neighbours, with its length.
pub open spec fn is_run_encoding<A>(runs: Seq<(int, A)>, s: Seq<A>) -> bool {
    &&& expand(runs) == s
    &&& forall|i: int| 0 <= i < runs.len() ==> #[trigger] runs[i].0 >= 1
    &&& forall|i: int| 0 < i < runs.len() ==> #[trigger] runs[i].1 != runs[i - 1].1
}

/// Equal items of `s` stand next to each other.
pub open spec fn is_grouped<A>(s: Seq<A>) -> bool {
    forall|i: int, j: int, k: int|
        0 <= i < j < k < s.len() && #[trigger] s[i] == #[trigger] s[k] ==> #[trigger] s[j] == s[i]
}

/// Ascending order.
pub open spec fn is_ascending(s: Seq<usize>) -> bool {
    forall|i: int, j: int| 0 <= i < j < s.len() ==> s[i] <= s[j]
}

/// `runs` encodes a rearrangement of `s` in which equal items are adjacent:
/// each run stands for one distinct item of `s` and its number of copies.
pub open spec fn is_grouping_of<A>(runs: Seq<(int, A)>, s: Seq<A>) -> bool {
    &&& is_run_encoding(runs, expand(runs))
    &&& is_grouped(expand(runs))
    &&& expand(runs).to_multiset() == s.to_multiset()
}

/// `runs` encodes `s` sorted in ascending order: one run per distinct value,
/// values ascending, each with its number of occurrences.
pub open spec fn is_sorted_grouping_of(runs: Seq<(int, usize)>, s: Seq<usize>) -> bool {
    &&& is_run_encoding(runs, expand(runs))
    &&& is_ascending(expand(runs))
    &&& expand(runs).to_multiset() == s.to_multiset()
}

/// Runs over reads, seen as character sequences.
pub open spec fn read_runs_view(r: Seq<(usize, String)>) -> Seq<(int, Seq<char>)> {
    r.map_values(|p: (usize, String)| (p.0 as int, p.1@))
}

/// Runs over integer values.
pub open spec fn value_runs_view(r: Seq<(usize, usize)>) -> Seq<(int, usize)> {
    r.map_values(|p: (usize, usize)| (p.0 as int, p.1))
}

/// Relies on `slice::sort` (std): the result is the same reads in ascending
/// order, so equal reads end up next to each other.
#[verifier::external_body]
fn sort_reads(v: Vec<String>) -> (r: Vec<String>)
    ensures
        r.deep_view().to_multiset() == v.deep_view().to_multiset(),
        is_grouped(r.deep_view()),
{
    let mut v = v;
    v.sort();
    v
}

/// Relies on `slice::sort` (std): the result is the same values in ascending
/// order.
#[verifier::external_body]
fn sort_values(v: Vec<usize>) -> (r: Vec<usize>)
    ensures
        r@.to_multiset() == v@.to_multiset(),
        is_ascending(r@),
{
    let mut v = v;
    v.sort();
    v
}

/// Relies on itertools' `Itertools::dedup_with_count`: each block of equal
/// neighbouring reads becomes one `(length of the block, read)` pair.
#[verifier::external_body]
fn read_runs(v: Vec<String>) -> (r: Vec<(usize, String)>)
    ensures
        is_run_encoding(read_runs_view(r@), v.deep_view()),
{
    v.into_iter().dedup_with_count().collect()
}

/// Relies on itertools' `Itertools::dedup_with_count`: each block of equal
/// neighbouring values becomes one `(length of the block, value)` pair.
#[verifier::external_body]
fn value_runs(v: Vec<usize>) -> (r: Vec<(usize, usize)>)
    ensures
        is_run_encoding(value_runs_view(r@), v@),
{
    v.into_iter().dedup_with_count().collect()
}

/// Number of leading characters of a read that count towards duplication.
pub const DUPLICATION_PREFIX: usize = 50;

/// A read cut to its first fifty characters (kept whole when shorter).
pub open spec fn truncated(s: Seq<char>) -> Seq<char> {
    if s.len() <= DUPLICATION_PREFIX {
        s
    } else {
        s.subrange(0, DUPLICATION_PREFIX as int)
    }
}

/// Every read of a sample cut to its first fifty characters.
pub open spec fn truncated_all(seqs: Seq<Seq<char>>) -> Seq<Seq<char>> {
    seqs.map_values(|s: Seq<char>| truncated(s))
}

/// Cuts a read to its first fifty characters.
pub fn truncate_read(s: &String) -> (r: String)
    ensures
        r@ == truncated(s@),
{
    let t = s.as_str();
    let len = t.unicode_len();
    if len <= DUPLICATION_PREFIX {
        s.clone()
    } else {
        t.substring_char(0, DUPLICATION_PREFIX).to_owned()
    }
}

/// Cuts every read of a sample to its first fifty characters.
pub fn truncate_reads(seqs: &Vec<String>) -> (r: Vec<String>)
    ensures
        r.deep_view() == truncated_all(seqs.deep_view()),
{
    let mut r: Vec<String> = Vec::new();
    let mut i: usize = 0;
    while i < seqs.len()
        invariant
            i <= seqs.len(),
            r.len() == i,
            forall|j: int| 0 <= j < i ==> #[trigger] r@[j]@ == truncated(seqs@[j]@),
        decreases seqs.len() - i,
    {
        r.push(truncate_read(&seqs[i]));
        i = i + 1;
    }
    assert forall|j: int| 0 <= j < r.len() implies #[trigger] r.deep_view()[j] == truncated_all(seqs.deep_view())[j] by {
        assert(r.deep_view()[j] == r@[j]@);
        assert(seqs.deep_view()[j] == seqs@[j]@);
    }
    assert(r.deep_view() =~= truncated_all(seqs.deep_view()));
    r
}

/// Groups the reads of a sample, cut to their first fifty characters, into
/// one `(copies, read)` pair per distinct read.
pub fn read_groups(seqs: &Vec<String>) -> (r: Vec<(usize, String)>)
    ensures
        is_grouping_of(read_runs_view(r@), truncated_all(seqs.deep_view())),
{
    let cut = truncate_reads(seqs);
    let sorted = sort_reads(cut);
    let runs = read_runs(sorted);
    runs
}

/// Groups a list of values into one `(occurrences, value)` pair per distinct
/// value, in ascending order of value.
pub fn value_distribution(values: &Vec<usize>) -> (r: Vec<(usize, usize)>)
    ensures
        is_sorted_grouping_of(value_runs_view(r@), values@),
{
    let sorted = sort_values(values.clone());
    value_runs(sorted)
}

/// Copies from which a read falls into the top bucket of the duplication chart.
pub const TOP_BUCKET: usize = 10;

/// The chart bucket of a read seen `c` times: heavy repeats share the top one.
pub open spec fn bucket_of(c: int) -> int {
    if c > TOP_BUCKET {
        TOP_BUCKET as int
    } else {
        c
    }
}

/// The buckets of the groups seen more than once, in group order.
pub open spec fn repeat_buckets(runs: Seq<(int, Seq<char>)>) -> Seq<int>
    decreases runs.len(),
{
    if runs.len() == 0 {
        Seq::empty()
    } else if runs.last().0 > 1 {
        repeat_buckets(runs.drop_last()).push(bucket_of(runs.last().0))
    } else {
        repeat_buckets(runs.drop_last())
    }
}

/// The chart bucket of each group of reads seen more than once.
pub fn duplicate_occurrences(groups: &Vec<(usize, String)>) -> (r: Vec<usize>)
    ensures
        ints_of(r@) == repeat_buckets(read_runs_view(groups@)),
{
    let ghost g = read_runs_view(groups@);
    let mut r: Vec<usize> = Vec::new();
    let mut i: usize = 0;
    proof {
        assert(g.subrange(0, 0) =~= Seq::<(int, Seq<char>)>::empty());
        assert(ints_of(r@) =~= Seq::<int>::empty());
    }
    while i < groups.len()
        invariant
            g == read_runs_view(groups@),
            i <= groups.len(),
            ints_of(r@) == repeat_buckets(g.subrange(0, i as int)),
        decreases groups.len() - i,
    {
        let c = groups[i].0;
        proof {
            assert(g.subrange(0, i + 1).drop_last() =~= g.subrange(0, i as int));
            assert(g.subrange(0, i + 1).last() == g[i as int]);
        }
        if c > 1 {
            let b = if c > TOP_BUCKET {
                TOP_BUCKET
            } else {
                c
            };
            let ghost before = r@;
            r.push(b);
            proof {
                assert(ints_of(r@) =~= ints_of(before).push(b as int));
            }
        }
        i = i + 1;
    }
    assert(g.subrange(0, groups.len() as int) =~= g);
    r
}

/// The entries of the duplication chart for buckets `2 .. k - 1`: each
/// bucket that holds at least one group, with the number of groups in it.
pub open spec fn histogram_below(occ: Seq<int>, k: int) -> Seq<(int, int)>
    decreases k,
{
    if k <= 2 {
        Seq::empty()
    } else {
        let c = occurrences(occ, k - 1);
        if c > 0 {
            histogram_below(occ, k - 1).push((k - 1, c as int))
        } else {
            histogram_below(occ, k - 1)
        }
    }
}

/// The duplication chart: for each bucket from two copies up to the top
/// one, the number of groups that fall in it, leaving out empty buckets.
pub fn duplication_histogram(occ: &Vec<usize>) -> (r: Vec<(usize, usize)>)
    ensures
        r@.map_values(|e: (usize, usize)| (e.0 as int, e.1 as int)) == histogram_below(
            ints_of(occ@),
            TOP_BUCKET as int + 1,
        ),
{
    let mut r: Vec<(usize, usize)> = Vec::new();
    let mut k: usize = 2;
    proof {
        assert(r@.map_values(|e: (usize, usize)| (e.0 as int, e.1 as int)) =~= Seq::<(int, int)>::empty());
    }
    while k <= TOP_BUCKET
        invariant
            2 <= k <= TOP_BUCKET + 1,
            r@.map_values(|e: (usize, usize)| (e.0 as int, e.1 as int)) == histogram_below(
                ints_of(occ@),
                k as int,
            ),
        decreases TOP_BUCKET + 1 - k,
    {
        let c = count_number_of_occurence(occ, k);
        if c > 0 {
            let ghost before = r@;
            r.push((k, c));
            proof {
                assert(r@.map_values(|e: (usize, usize)| (e.0 as int, e.1 as int)) =~= before.map_values(
                    |e: (usize, usize)| (e.0 as int, e.1 as int),
                ).push((k as int, c as int)));
            }
        }
        k = k + 1;
    }
    r
}

/// The items that the runs stand for, one per run.
pub open spec fn run_keys<A>(runs: Seq<(int, A)>) -> Seq<A> {
    runs.map_values(|p: (int, A)| p.1)
}

proof fn lemma_expand_concat<A>(a: Seq<(int, A)>, b: Seq<(int, A)>)
    ensures
        expand(a + b) == expand(a) + expand(b),
    decreases b.len(),
{
    if b.len() == 0 {
        assert(a + b =~= a);
        assert(expand(b) =~= Seq::<A>::empty());
        assert(expand(a) + expand(b) =~= expand(a));
    } else {
        lemma_expand_concat(a, b.drop_last());
        assert((a + b).drop_last() =~= a + b.drop_last());
        assert(expand(a) + expand(b) =~= expand(a) + expand(b.drop_last()) + repeat(b.last().0, b.last().1));
    }
}

proof fn lemma_expand_single<A>(r: (int, A))
    ensures
        expand(seq![r]) == repeat(r.0, r.1),
{
    assert(seq![r].drop_last() =~= Seq::<(int, A)>::empty());
    assert(expand(Seq::<(int, A)>::empty()) =~= Seq::<A>::empty());
    assert(expand(seq![r]) =~= repeat(r.0, r.1));
}

proof fn lemma_expand_contains<A>(runs: Seq<(int, A)>, x: A)
    requires
        forall|i: int| 0 <= i < runs.len() ==> #[trigger] runs[i].0 >= 1,
    ensures
        expand(runs).contains(x) <==> run_keys(runs).contains(x),
    decreases runs.len(),
{
    if runs.len() > 0 {
        let init = runs.drop_last();
        assert forall|i: int| 0 <= i < init.len() implies #[trigger] init[i].0 >= 1 by {
            assert(init[i] == runs[i]);
        }
        lemma_expand_contains(init, x);
        let head = expand(init);
        let tail = repeat(runs.last().0, runs.last().1);
        assert(runs[runs.len() - 1].0 >= 1);
        assert(run_keys(runs) =~= run_keys(init).push(runs.last().1));
        if expand(runs).contains(x) {
            let k = choose|k: int| 0 <= k < expand(runs).len() && expand(runs)[k] == x;
            if k >= head.len() {
                assert((head + tail)[k] == tail[k - head.len()]);
                assert(run_keys(runs)[runs.len() - 1] == x);
            } else {
                assert((head + tail)[k] == head[k]);
                let m = choose|m: int| 0 <= m < run_keys(init).len() && run_keys(init)[m] == x;
                assert(run_keys(runs)[m] == x);
            }
        }
        if run_keys(runs).contains(x) {
            let m = choose|m: int| 0 <= m < run_keys(runs).len() && run_keys(runs)[m] == x;
            if m == runs.len() - 1 {
                assert((head + tail)[head.len() as int] == x);
            } else {
                assert(run_keys(init)[m] == x);
                let k = choose|k: int| 0 <= k < head.len() && head[k] == x;
                assert((head + tail)[k] == x);
            }
        }
    }
}

proof fn lemma_run_start<A>(runs: Seq<(int, A)>, i: int)
    requires
        forall|j: int| 0 <= j < runs.len() ==> #[trigger] runs[j].0 >= 1,
        0 <= i < runs.len(),
    ensures
        expand(runs.subrange(0, i)).len() < expand(runs).len(),
        expand(runs)[expand(runs.subrange(0, i)).len() as int] == runs[i].1,
        expand(runs.subrange(0, i + 1)).len() == expand(runs.subrange(0, i)).len() + runs[i].0,
{
    let pre = runs.subrange(0, i);
    let post = runs.subrange(i, runs.len() as int);
    assert(runs =~= pre + post);
    lemma_expand_concat(pre, post);
    assert(post =~= seq![runs[i]] + post.subrange(1, post.len() as int));
    lemma_expand_concat(seq![runs[i]], post.subrange(1, post.len() as int));
    lemma_expand_single(runs[i]);
    assert(runs.subrange(0, i + 1) =~= pre + seq![runs[i]]);
    lemma_expand_concat(pre, seq![runs[i]]);
    let e = expand(runs);
    let r0 = repeat(runs[i].0, runs[i].1);
    assert(expand(post) == r0 + expand(post.subrange(1, post.len() as int)));
    assert(e == expand(pre) + (r0 + expand(post.subrange(1, post.len() as int))));
    assert(e[expand(pre).len() as int] == r0[0]);
}

proof fn lemma_start_monotone<A>(runs: Seq<(int, A)>, i: int, j: int)
    requires
        forall|k: int| 0 <= k < runs.len() ==> #[trigger] runs[k].0 >= 1,
        0 <= i < j <= runs.len(),
    ensures
        expand(runs.subrange(0, i)).len() < expand(runs.subrange(0, j)).len(),
    decreases j - i,
{
    lemma_run_start(runs, j - 1);
    if i < j - 1 {
        lemma_start_monotone(runs, i, j - 1);
    }
}

proof fn lemma_keys_distinct<A>(runs: Seq<(int, A)>)
    requires
        is_run_encoding(runs, expand(runs)),
        is_grouped(expand(runs)),
    ensures
        run_keys(runs).no_duplicates(),
{
    let e = expand(runs);
    assert forall|i: int, j: int| 0 <= i < run_keys(runs).len() && 0 <= j < run_keys(runs).len() && i != j implies run_keys(runs)[i] != run_keys(runs)[j] by {
        let a = if i < j { i } else { j };
        let b = if i < j { j } else { i };
        if runs[a].1 == runs[b].1 {
            lemma_run_start(runs, a);
            lemma_run_start(runs, a + 1);
            lemma_run_start(runs, b);
            let sa = expand(runs.subrange(0, a)).len() as int;
            let sn = expand(runs.subrange(0, a + 1)).len() as int;
            let sb = expand(runs.subrange(0, b)).len() as int;
            assert(runs[a + 1].1 != runs[a].1);
            if a + 1 < b {
                lemma_start_monotone(runs, a + 1, b);
                assert(e[sa] == e[sb]);
                assert(e[sn] == e[sa]);
            }
        }
    }
}

/// The number of groups of a grouping is the number of distinct items.
pub proof fn lemma_group_count_is_distinct_count<A>(runs: Seq<(int, A)>, s: Seq<A>)
    requires
        is_grouping_of(runs, s),
    ensures
        runs.len() == s.to_set().len(),
{
    let e = expand(runs);
    lemma_keys_distinct(runs);
    run_keys(runs).unique_seq_to_set();
    broadcast use vstd::seq_lib::to_multiset_contains;
    assert forall|x: A| #[trigger] run_keys(runs).to_set().contains(x) == s.to_set().contains(x) by {
        lemma_expand_contains(runs, x);
        assert(e.to_multiset().count(x) == s.to_multiset().count(x));
    }
    assert(run_keys(runs).to_set() =~= s.to_set());
}

} // verus!
