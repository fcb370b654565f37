//! Splitting the candidate sequence into contiguous, near-equal tasks.

use vstd::prelude::*;

verus! {

/// The number of workers a request is served with: a request for none is
/// served with one.
pub open spec fn effective_workers(workers: int) -> int {
    if workers < 1 {
        1
    } else {
        workers
    }
}

/// `n / d` rounded up.
pub open spec fn ceil_div(n: int, d: int) -> int
    recommends
        n >= 0,
        d > 0,
{
    (n + d - 1) / d
}

/// The number of candidates in every task but possibly the last.
pub open spec fn chunk_len(n: int, workers: int) -> int {
    ceil_div(n, effective_workers(workers))
}

/// The number of tasks that `n` candidates are split into.
pub open spec fn task_count(n: int, workers: int) -> int {
    if n <= 0 {
        0
    } else {
        ceil_div(n, chunk_len(n, workers))
    }
}

/// Position in the candidate sequence at which task `t` starts.
pub open spec fn task_start(n: int, workers: int, t: int) -> int {
    t * chunk_len(n, workers)
}

/// Position in the candidate sequence just behind task `t`.
pub open spec fn task_end(n: int, workers: int, t: int) -> int {
    if (t + 1) * chunk_len(n, workers) < n {
        (t + 1) * chunk_len(n, workers)
    } else {
        n
    }
}

/// A contiguous run of candidates that one worker processes.
#[derive(Debug, Clone, PartialEq, Eq)]
pub struct ScanTask {
    /// Position of the first label in the candidate sequence.
    pub start: usize,
    /// The labels to process, in the order of the candidate sequence.
    pub labels: Vec<String>,
}

/// What it means for `tasks` to be the split of `candidates` among `workers`.
pub open spec fn is_partition(tasks: Seq<ScanTask>, candidates: Seq<String>, workers: int) -> bool {
    let n = candidates.len() as int;
    &&& tasks.len() == task_count(n, workers)
    &&& forall|t: int|
        0 <= t < tasks.len() ==> {
            &&& (#[trigger] tasks[t]).start == task_start(n, workers, t)
            &&& tasks[t].labels@ == candidates.subrange(
                task_start(n, workers, t),
                task_end(n, workers, t),
            )
        }
}

/// The labels of all tasks, one task after the other.
pub open spec fn concat_tasks(tasks: Seq<ScanTask>) -> Seq<String>
    decreases tasks.len(),
{
    if tasks.len() == 0 {
        Seq::empty()
    } else {
        concat_tasks(tasks.drop_last()) + tasks.last().labels@
    }
}

/// Facts about rounding up on which the split rests.
pub proof fn lemma_ceil_div(n: int, d: int)
    requires
        n >= 1,
        d >= 1,
    ensures
        ceil_div(n, d) >= 1,
        ceil_div(n, d) <= n,
        (ceil_div(n, d) - 1) * d < n,
        n <= ceil_div(n, d) * d,
{
    let q = (n + d - 1) / d;
    assert(q * d <= n + d - 1 && n + d - 1 < q * d + d) by (nonlinear_arith)
        requires
            q == (n + d - 1) / d,
            d >= 1,
    ;
    assert((q - 1) * d == q * d - d) by (nonlinear_arith);
    assert(q >= 1) by (nonlinear_arith)
        requires
            n + d - 1 < q * d + d,
            n >= 1,
            d >= 1,
    ;
    assert(q <= n) by (nonlinear_arith)
        requires
            q * d <= n + d - 1,
            n >= 1,
            d >= 1,
            q >= 1,
    ;
}

/// The number of full steps of width `c` that cover `n` is determined by its
/// two bounds.
pub proof fn lemma_ceil_div_unique(n: int, c: int, k: int)
    requires
        n >= 1,
        c >= 1,
        (k - 1) * c < n,
        n <= k * c,
    ensures
        k == ceil_div(n, c),
{
    lemma_ceil_div(n, c);
    let q = ceil_div(n, c);
    assert(k == q) by (nonlinear_arith)
        requires
            c >= 1,
            (k - 1) * c < n,
            n <= k * c,
            (q - 1) * c < n,
            n <= q * c,
    ;
}

/// Computes the chunk length for `n` candidates and the requested number of
/// workers, a request for no worker counting as one.
pub fn chunk_size(n: usize, workers: usize) -> (chunk: usize)
    ensures
        chunk == chunk_len(n as int, workers as int),
        n >= 1 ==> 1 <= chunk <= n,
        n == 0 ==> chunk == 0,
{
    let w: usize = if workers < 1 {
        1
    } else {
        workers
    };
    let q: usize = n / w;
    let r: usize = n % w;
    proof {
        let ni = n as int;
        let wi = w as int;
        assert(ni == wi * (ni / wi) + ni % wi && 0 <= ni % wi < wi) by (nonlinear_arith)
            requires
                wi >= 1,
                ni >= 0,
        ;
        if r == 0 {
            assert((ni + wi - 1) / wi == q) by (nonlinear_arith)
                requires
                    ni == wi * q,
                    wi >= 1,
            ;
        } else {
            assert((ni + wi - 1) / wi == q + 1) by (nonlinear_arith)
                requires
                    ni == wi * q + r,
                    0 < r < wi,
            ;
        }
        if n >= 1 {
            lemma_ceil_div(ni, wi);
        }
    }
    if r == 0 {
        q
    } else {
        q + 1
    }
}

/// The first `k` tasks of a split hold the candidates up to the end of task
/// `k - 1`, in their order.
pub proof fn lemma_concat_prefix(tasks: Seq<ScanTask>, candidates: Seq<String>, workers: int, k: int)
    requires
        is_partition(tasks, candidates, workers),
        0 <= k <= tasks.len(),
    ensures
        k == 0 ==> concat_tasks(tasks.take(k)) == Seq::<String>::empty(),
        k > 0 ==> 0 <= task_end(candidates.len() as int, workers, k - 1) <= candidates.len()
            && concat_tasks(tasks.take(k)) == candidates.take(
            task_end(candidates.len() as int, workers, k - 1),
        ),
    decreases k,
{
    let n = candidates.len() as int;
    if k > 0 {
        let c = chunk_len(n, workers);
        lemma_ceil_div(n, effective_workers(workers));
        lemma_ceil_div(n, c);
        lemma_concat_prefix(tasks, candidates, workers, k - 1);
        assert(tasks.take(k).drop_last() =~= tasks.take(k - 1));
        assert(tasks.take(k).last() == tasks[k - 1]);
        assert(k * c == (k - 1) * c + c) by (nonlinear_arith);
        assert((k - 1) * c >= 0) by (nonlinear_arith)
            requires
                k >= 1,
                c >= 1,
        ;
        assert((k - 1) * c <= (tasks.len() - 1) * c) by (nonlinear_arith)
            requires
                k <= tasks.len(),
                c >= 1,
        ;
        let lo = task_start(n, workers, k - 1);
        let hi = task_end(n, workers, k - 1);
        if k == 1 {
            assert(concat_tasks(tasks.take(0)) =~= Seq::<String>::empty());
            assert(Seq::<String>::empty() + candidates.subrange(lo, hi) =~= candidates.take(hi));
        } else {
            assert((k - 1) * c == (k - 2) * c + c) by (nonlinear_arith);
            assert(task_end(n, workers, k - 2) == lo);
            assert(candidates.take(lo) + candidates.subrange(lo, hi) =~= candidates.take(hi));
        }
    }
}

/// Splits `candidates` into contiguous tasks of `chunk_size` labels each,
/// the last one possibly shorter. No task is empty; no candidates give no
/// task.
pub fn partition(candidates: &Vec<String>, workers: usize) -> (tasks: Vec<ScanTask>)
    ensures
        is_partition(tasks@, candidates@, workers as int),
        concat_tasks(tasks@) == candidates@,
        tasks@.len() <= candidates@.len(),
        tasks@.len() <= effective_workers(workers as int),
        forall|t: int|
            0 <= t < tasks@.len() ==> 1 <= (#[trigger] tasks@[t]).labels@.len() <= chunk_len(
                candidates@.len() as int,
                workers as int,
            ),
{
    let n: usize = candidates.len();
    let mut tasks: Vec<ScanTask> = Vec::new();
    if n == 0 {
        proof {
            law_partition_complete(tasks@, candidates@, workers as int);
        }
        return tasks;
    }
    let chunk: usize = chunk_size(n, workers);
    let mut pos: usize = 0;
    assert(tasks@.len() * chunk == 0) by (nonlinear_arith)
        requires
            tasks@.len() == 0,
    ;
    while pos < n
        invariant
            n == candidates@.len(),
            n >= 1,
            chunk == chunk_len(n as int, workers as int),
            1 <= chunk <= n,
            pos <= n,
            pos < n ==> pos == tasks@.len() * chunk,
            pos == n ==> (tasks@.len() - 1) * chunk < n <= tasks@.len() * chunk,
            forall|t: int|
                0 <= t < tasks@.len() ==> {
                    &&& (#[trigger] tasks@[t]).start == task_start(n as int, workers as int, t)
                    &&& tasks@[t].labels@ == candidates@.subrange(
                        task_start(n as int, workers as int, t),
                        task_end(n as int, workers as int, t),
                    )
                },
        decreases n - pos,
    {
        let end: usize = if n - pos < chunk {
            n
        } else {
            pos + chunk
        };
        let mut labels: Vec<String> = Vec::new();
        let mut i: usize = pos;
        while i < end
            invariant
                pos <= i <= end <= n,
                n == candidates@.len(),
                labels@ == candidates@.subrange(pos as int, i as int),
            decreases end - i,
        {
            labels.push(candidates[i].clone());
            proof {
                assert(candidates@.subrange(pos as int, i as int).push(candidates@[i as int])
                    =~= candidates@.subrange(pos as int, i + 1));
            }
            i += 1;
        }
        proof {
            let k = tasks@.len() as int;
            assert((k + 1) * chunk == k * chunk + chunk) by (nonlinear_arith);
            assert(task_start(n as int, workers as int, k) == pos);
            assert(task_end(n as int, workers as int, k) == end);
        }
        tasks.push(ScanTask { start: pos, labels });
        pos = end;
    }
    proof {
        lemma_ceil_div_unique(n as int, chunk as int, tasks@.len() as int);
        law_partition_complete(tasks@, candidates@, workers as int);
        law_partition_bounded(tasks@, candidates@, workers as int);
    }
    tasks
}

/// Every candidate lies in exactly one task, and the tasks taken one after
/// the other give the candidate sequence back, in its order.
pub proof fn law_partition_complete(tasks: Seq<ScanTask>, candidates: Seq<String>, workers: int)
    requires
        is_partition(tasks, candidates, workers),
    ensures
        concat_tasks(tasks) == candidates,
        forall|i: int|
            0 <= i < candidates.len() ==> {
                let t = #[trigger] owner_of(candidates.len() as int, workers, i);
                &&& 0 <= t < tasks.len()
                &&& tasks[t].start <= i < tasks[t].start + tasks[t].labels@.len()
                &&& tasks[t].labels@[i - tasks[t].start] == candidates[i]
            },
        forall|s: int, t: int|
            0 <= s < t < tasks.len() ==> (#[trigger] tasks[s]).start + tasks[s].labels@.len() <= (
            #[trigger] tasks[t]).start,
{
    let n = candidates.len() as int;
    let k = tasks.len() as int;
    lemma_concat_prefix(tasks, candidates, workers, k);
    assert(tasks.take(k) =~= tasks);
    if n > 0 {
        let c = chunk_len(n, workers);
        lemma_ceil_div(n, effective_workers(workers));
        lemma_ceil_div(n, c);
        assert(task_end(n, workers, k - 1) == n) by {
            assert((k - 1 + 1) * c == k * c);
        }
        assert(candidates.take(n) =~= candidates);
        assert forall|i: int| 0 <= i < n implies {
            let t = #[trigger] owner_of(n, workers, i);
            &&& 0 <= t < tasks.len()
            &&& tasks[t].start <= i < tasks[t].start + tasks[t].labels@.len()
            &&& tasks[t].labels@[i - tasks[t].start] == candidates[i]
        } by {
            let t = i / c;
            assert(t * c <= i < (t + 1) * c && t >= 0) by (nonlinear_arith)
                requires
                    t == i / c,
                    c >= 1,
                    i >= 0,
            ;
            assert(t < k) by (nonlinear_arith)
                requires
                    t * c <= i,
                    i < n,
                    n <= k * c,
                    c >= 1,
            ;
            assert(tasks[t].start == t * c);
        }
        assert forall|s: int, t: int| 0 <= s < t < tasks.len() implies (#[trigger] tasks[s]).start
            + tasks[s].labels@.len() <= (#[trigger] tasks[t]).start by {
            assert((s + 1) * c <= t * c) by (nonlinear_arith)
                requires
                    s + 1 <= t,
                    c >= 1,
            ;
            assert(s * c >= 0) by (nonlinear_arith)
                requires
                    s >= 0,
                    c >= 1,
            ;
            assert((s + 1) * c == s * c + c) by (nonlinear_arith);
            assert(t * c < n) by (nonlinear_arith)
                requires
                    t <= k - 1,
                    (k - 1) * c < n,
                    c >= 1,
            ;
        }
    } else {
        assert(concat_tasks(tasks) =~= candidates);
    }
}

/// The tasks lie side by side: the first starts at the first candidate,
/// each starts where the one before it ends, and the last ends with the
/// last candidate. There is no task exactly when there is no candidate.
pub proof fn lemma_tasks_adjacent(tasks: Seq<ScanTask>, candidates: Seq<String>, workers: int)
    requires
        is_partition(tasks, candidates, workers),
    ensures
        tasks.len() == 0 <==> candidates.len() == 0,
        tasks.len() > 0 ==> tasks[0].start == 0,
        tasks.len() > 0 ==> tasks.last().start + tasks.last().labels@.len() == candidates.len(),
        forall|t: int|
            0 <= t < tasks.len() - 1 ==> (#[trigger] tasks[t]).start + tasks[t].labels@.len()
                == tasks[t + 1].start,
        forall|t: int|
            0 <= t < tasks.len() ==> (#[trigger] tasks[t]).start + tasks[t].labels@.len()
                <= candidates.len() && tasks[t].labels@ == candidates.subrange(
                tasks[t].start as int,
                tasks[t].start + tasks[t].labels@.len(),
            ),
{
    let n = candidates.len() as int;
    let k = tasks.len() as int;
    if n > 0 {
        let c = chunk_len(n, workers);
        lemma_ceil_div(n, effective_workers(workers));
        lemma_ceil_div(n, c);
        law_partition_bounded(tasks, candidates, workers);
        assert(tasks[0].start == 0 * c);
        assert((k - 1 + 1) * c == k * c);
        assert((k - 1) * c >= 0) by (nonlinear_arith)
            requires
                k >= 1,
                c >= 1,
        ;
        assert forall|t: int| 0 <= t < k implies (#[trigger] tasks[t]).start
            + tasks[t].labels@.len() <= n && tasks[t].labels@ == candidates.subrange(
            tasks[t].start as int,
            tasks[t].start + tasks[t].labels@.len(),
        ) && (t < k - 1 ==> tasks[t].start + tasks[t].labels@.len() == tasks[t + 1].start) by {
            assert((t + 1) * c == t * c + c) by (nonlinear_arith);
            assert(t * c >= 0) by (nonlinear_arith)
                requires
                    t >= 0,
                    c >= 1,
            ;
            assert(t * c <= (k - 1) * c) by (nonlinear_arith)
                requires
                    t <= k - 1,
                    c >= 1,
            ;
        }
    }
}

/// The task in which the candidate at position `i` lies.
pub open spec fn owner_of(n: int, workers: int, i: int) -> int {
    i / chunk_len(n, workers)
}

/// No task is empty or longer than the chunk length, every task but the
/// last is exactly that long, and there are no more tasks than workers or
/// candidates.
pub proof fn law_partition_bounded(tasks: Seq<ScanTask>, candidates: Seq<String>, workers: int)
    requires
        is_partition(tasks, candidates, workers),
    ensures
        tasks.len() <= candidates.len(),
        tasks.len() <= effective_workers(workers),
        forall|t: int|
            0 <= t < tasks.len() ==> 1 <= (#[trigger] tasks[t]).labels@.len() <= chunk_len(
                candidates.len() as int,
                workers,
            ),
        forall|t: int|
            0 <= t < tasks.len() - 1 ==> (#[trigger] tasks[t]).labels@.len() == chunk_len(
                candidates.len() as int,
                workers,
            ),
        workers >= candidates.len() ==> forall|t: int|
            0 <= t < tasks.len() ==> (#[trigger] tasks[t]).labels@.len() == 1,
{
    let n = candidates.len() as int;
    let k = tasks.len() as int;
    if n > 0 {
        let w = effective_workers(workers);
        let c = chunk_len(n, workers);
        lemma_ceil_div(n, w);
        lemma_ceil_div(n, c);
        assert(k <= w) by (nonlinear_arith)
            requires
                (k - 1) * c < n,
                n <= c * w,
                c >= 1,
        ;
        if workers >= n {
            if c >= 2 {
                assert((c - 1) * w >= w) by (nonlinear_arith)
                    requires
                        c - 1 >= 1,
                        w >= 1,
                ;
            }
        }
        assert forall|t: int| 0 <= t < k implies 1 <= (#[trigger] tasks[t]).labels@.len() <= c && (t
            < k - 1 ==> tasks[t].labels@.len() == c) by {
            assert((t + 1) * c == t * c + c) by (nonlinear_arith);
            assert(t * c >= 0) by (nonlinear_arith)
                requires
                    t >= 0,
                    c >= 1,
            ;
            assert(t * c <= (k - 1) * c) by (nonlinear_arith)
                requires
                    t <= k - 1,
                    c >= 1,
            ;
            if t < k - 1 {
                assert((t + 1) * c <= (k - 1) * c) by (nonlinear_arith)
                    requires
                        t + 1 <= k - 1,
                        c >= 1,
                ;
            }
        }
    }
}

} // verus!
