//! Draw runs that preserve glyph order.
use vstd::prelude::*;
use std::ops::Range;

verus! {

/// The number of set flags among the first `n`.
pub open spec fn covered_before(flags: Seq<bool>, n: int) -> int
    decreases n,
{
    if n <= 0 {
        0
    } else {
        covered_before(flags, n - 1) + if flags[n - 1] { 1int } else { 0int }
    }
}

/// A stretch of instances of the same kind.
#[derive(Clone, Copy, Debug)]
pub struct Run {
    /// Whether the ring covers the instances.
    pub covered: bool,
    /// The instances.
    pub start: usize,
    pub end: usize,
    /// The covered ones among the covered instances of the area.
    pub border_start: usize,
    pub border_end: usize,
}

/// The run that starts at `start` and ends before `end`.
pub open spec fn run_between(flags: Seq<bool>, start: int, end: int) -> Run {
    Run {
        covered: flags[start],
        start: start as usize,
        end: end as usize,
        border_start: covered_before(flags, start) as usize,
        border_end: covered_before(flags, end) as usize,
    }
}

/// The runs of the first `n` flags: neighbours of the same kind belong together.
pub open spec fn runs_of(flags: Seq<bool>, n: int) -> Seq<Run>
    decreases n,
    via runs_end
{
    if n <= 0 {
        Seq::empty()
    } else {
        let start = run_start(flags, n - 1);
        runs_of(flags, start).push(run_between(flags, start, n))
    }
}

#[via_fn]
proof fn runs_end(flags: Seq<bool>, n: int) {
    if n > 0 {
        lemma_run_start_bound(flags, n - 1);
    }
}

proof fn lemma_run_start_bound(flags: Seq<bool>, i: int)
    requires
        0 <= i,
    ensures
        0 <= run_start(flags, i) <= i,
    decreases i,
{
    if i > 0 && flags[i - 1] == flags[i] {
        lemma_run_start_bound(flags, i - 1);
    }
}

/// Where the stretch of equal flags that `i` belongs to starts.
pub open spec fn run_start(flags: Seq<bool>, i: int) -> int
    decreases i,
{
    if i <= 0 {
        0
    } else if flags[i - 1] == flags[i] {
        run_start(flags, i - 1)
    } else {
        i
    }
}

proof fn lemma_covered_range(flags: Seq<bool>, n: int)
    requires
        0 <= n,
    ensures
        0 <= covered_before(flags, n) <= n,
    decreases n,
{
    if n > 0 {
        lemma_covered_range(flags, n - 1);
    }
}

proof fn lemma_run_start(flags: Seq<bool>, start: int, i: int)
    requires
        0 <= start <= i < flags.len(),
        forall|j: int| start <= j <= i ==> #[trigger] flags[j] == flags[start],
        start == 0 || flags[start - 1] != flags[start],
    ensures
        run_start(flags, i) == start,
    decreases i,
{
    if start < i {
        assert(flags[i - 1] == flags[start]);
        assert(flags[i] == flags[start]);
        lemma_run_start(flags, start, i - 1);
    }
}

/// Splits an area into draw runs that preserve glyph order.
///
/// `decorated[i]` says whether instance `i` is covered by the ring. Drawing all
/// covered instances first would reorder them, which shows wherever quads
/// overlap. So neighbours of the same kind form a run and the runs stay in order.
pub fn split_runs(decorated: &[bool]) -> (runs: Vec<Run>)
    ensures
        runs@ == runs_of(decorated@, decorated@.len() as int),
{
    let mut runs: Vec<Run> = Vec::new();
    let mut index: usize = 0;
    let mut covered_seen: usize = 0;
    while index < decorated.len()
        invariant
            index <= decorated@.len(),
            covered_seen == covered_before(decorated@, index as int),
            runs@ == runs_of(decorated@, index as int),
            0 < index < decorated@.len() ==> decorated@[index as int] != decorated@[index - 1],
        decreases decorated.len() - index,
    {
        let kind: bool = decorated[index];
        let start: usize = index;
        let border_start: usize = covered_seen;
        while index < decorated.len() && decorated[index] == kind
            invariant
                start <= index <= decorated@.len(),
                covered_seen == covered_before(decorated@, index as int),
                forall|i: int| start <= i < index ==> #[trigger] decorated@[i] == kind,
            decreases decorated.len() - index,
        {
            proof {
                lemma_covered_range(decorated@, index as int);
            }
            if kind {
                covered_seen = covered_seen + 1;
            }
            index = index + 1;
        }
        runs.push(Run { covered: kind, start, end: index, border_start, border_end: covered_seen });
        proof {
            lemma_run_start(decorated@, start as int, index - 1);
        }
    }
    runs
}

/// A run as ranges: its kind, its instances, its part of the decoration stream.
pub open spec fn ranges_of(run: Run) -> (bool, Range<u32>, Range<u32>) {
    (
        run.covered,
        Range { start: run.start as u32, end: run.end as u32 },
        Range { start: run.border_start as u32, end: run.border_end as u32 },
    )
}

/// The runs of an area as ranges: kind, instances, and the part of the decoration
/// stream, which holds the covered instances only.
pub fn decoration_runs(decorated: &[bool]) -> (runs: Vec<(bool, Range<u32>, Range<u32>)>)
    requires
        decorated@.len() <= u32::MAX,
    ensures
        runs@ == runs_of(decorated@, decorated@.len() as int).map_values(|run: Run| ranges_of(run)),
{
    let list: Vec<Run> = split_runs(decorated);
    let mut runs: Vec<(bool, Range<u32>, Range<u32>)> = Vec::new();
    for i in 0..list.len()
        invariant
            decorated@.len() <= u32::MAX,
            list@ == runs_of(decorated@, decorated@.len() as int),
            runs@.len() == i,
            forall|j: int| 0 <= j < i ==> #[trigger] runs@[j] == ranges_of(list@[j]),
    {
        let run: Run = list[i];
        proof {
            law_runs_partition_the_instances(decorated@, decorated@.len() as int, i as int);
        }
        runs.push((run.covered, run.start as u32..run.end as u32, run.border_start as u32..run.border_end as u32));
    }
    assert(runs@ =~= list@.map_values(|run: Run| ranges_of(run)));
    runs
}

proof fn lemma_run_start_range(flags: Seq<bool>, i: int)
    requires
        0 <= i < flags.len(),
    ensures
        0 <= run_start(flags, i) <= i,
        forall|j: int| run_start(flags, i) <= j <= i ==> #[trigger] flags[j] == flags[i],
        run_start(flags, i) > 0 ==> flags[run_start(flags, i) - 1] != flags[i],
    decreases i,
{
    if i > 0 && flags[i - 1] == flags[i] {
        lemma_run_start_range(flags, i - 1);
    }
}

/// The runs partition the instances in order. Each run holds instances of one
/// kind, its neighbours are of the other kind, and the covered runs walk the
/// decoration stream from its start to its end without a gap.
pub proof fn law_runs_partition_the_instances(flags: Seq<bool>, n: int, k: int)
    requires
        0 <= n <= flags.len() <= usize::MAX,
        0 <= k < runs_of(flags, n).len(),
    ensures
        ({
            let runs = runs_of(flags, n);
            let run = runs[k];
            &&& run.start < run.end <= n
            &&& run.border_start <= run.border_end <= run.end
            &&& forall|i: int| run.start <= i < run.end ==> #[trigger] flags[i] == run.covered
            &&& run.start == if k == 0 { 0 } else { runs[k - 1].end as int }
            &&& run.border_start == if k == 0 { 0 } else { runs[k - 1].border_end as int }
            &&& run.border_end - run.border_start == if run.covered { run.end - run.start } else { 0 }
            &&& k > 0 ==> runs[k - 1].covered != run.covered
            &&& k == runs.len() - 1 ==> run.end == n && run.border_end == covered_before(flags, n)
        }),
    decreases n,
{
    let start = run_start(flags, n - 1);
    lemma_run_start_range(flags, n - 1);
    let before = runs_of(flags, start);
    lemma_covered_range(flags, n);
    lemma_covered_range(flags, start);
    if k < before.len() {
        law_runs_partition_the_instances(flags, start, k);
    } else {
        lemma_covered_in_run(flags, start, n, flags[start]);
        if before.len() > 0 {
            law_runs_partition_the_instances(flags, start, before.len() - 1);
            let last = before[before.len() - 1];
            assert(last.end == start);
            assert(flags[start - 1] == last.covered);
        } else {
            assert(start == 0);
        }
    }
}

proof fn lemma_covered_in_run(flags: Seq<bool>, start: int, end: int, kind: bool)
    requires
        0 <= start <= end <= flags.len(),
        forall|i: int| start <= i < end ==> #[trigger] flags[i] == kind,
    ensures
        covered_before(flags, end) - covered_before(flags, start) == if kind { end - start } else { 0 },
    decreases end - start,
{
    if start < end {
        lemma_covered_in_run(flags, start, end - 1, kind);
        assert(flags[end - 1] == kind);
    }
}

}
