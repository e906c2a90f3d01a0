//! Streaming results in bounded batches, the shared progress counters, and
//! the static partition of the work among workers.
use vstd::prelude::*;
use crate::scan::ScanResult;

verus! {

/// Most results in one batch.
pub const BATCH_SIZE: usize = 50;

/// The batches that a run over `rs` emits: full batches of `BATCH_SIZE` in
/// order, then the non-empty remainder.
pub open spec fn batches_of<A>(rs: Seq<A>) -> Seq<Seq<A>>
    decreases rs.len(),
{
    if rs.len() == 0 {
        Seq::empty()
    } else if rs.len() <= 50 {
        seq![rs]
    } else {
        seq![rs.take(50)] + batches_of(rs.skip(50))
    }
}

/// Lemma: appending a batch of at most `BATCH_SIZE` to a run of full batches
/// appends it to the emitted batches.
pub proof fn lemma_batches_append<A>(p: Seq<A>, r: Seq<A>)
    requires
        p.len() % 50 == 0,
        0 < r.len() <= 50,
    ensures
        batches_of(p + r) == batches_of(p).push(r),
    decreases p.len(),
{
    if p.len() == 0 {
        assert(p + r =~= r);
        assert(batches_of(p).push(r) =~= seq![r]);
    } else {
        let q = p + r;
        assert(q.take(50) =~= p.take(50));
        assert(q.skip(50) =~= p.skip(50) + r);
        lemma_batches_append(p.skip(50), r);
        if p.len() == 50 {
            assert(p.skip(50) =~= Seq::<A>::empty());
            assert(p.skip(50) + r =~= r);
            assert(p.take(50) =~= p);
            assert(batches_of(p) =~= seq![p]);
            assert(batches_of(q) =~= seq![p] + seq![r]);
            assert(batches_of(p).push(r) =~= seq![p] + seq![r]);
        } else {
            assert(batches_of(q) == seq![p.take(50)] + batches_of(p.skip(50)).push(r));
            assert(batches_of(p) == seq![p.take(50)] + batches_of(p.skip(50)));
            assert(seq![p.take(50)] + batches_of(p.skip(50)).push(r) =~= (seq![p.take(50)]
                + batches_of(p.skip(50))).push(r));
        }
    }
}

/// Every batch of a run holds between 1 and `BATCH_SIZE` results, and the
/// batches together hold exactly the results of the run, in order.
pub proof fn lemma_batches_cover<A>(rs: Seq<A>)
    ensures
        forall|i: int| 0 <= i < batches_of(rs).len() ==> 0 < #[trigger] batches_of(rs)[i].len() <= 50,
        batches_of(rs).flatten() == rs,
        batches_of(rs).flatten().len() == rs.len(),
    decreases rs.len(),
{
    if rs.len() == 0 {
        assert(batches_of(rs).flatten() =~= rs);
    } else if rs.len() <= 50 {
        assert(batches_of(rs) == seq![rs]);
        assert(seq![rs].drop_first() =~= Seq::<Seq<A>>::empty());
        assert(seq![rs].flatten() == rs + Seq::<Seq<A>>::empty().flatten());
        assert(rs + Seq::<A>::empty() =~= rs);
    } else {
        lemma_batches_cover(rs.skip(50));
        let b = batches_of(rs);
        assert(b == seq![rs.take(50)] + batches_of(rs.skip(50)));
        assert(b.drop_first() =~= batches_of(rs.skip(50)));
        assert(b.flatten() == b[0] + b.drop_first().flatten());
        assert(rs.take(50) + rs.skip(50) =~= rs);
        assert forall|i: int| 0 <= i < b.len() implies 0 < #[trigger] b[i].len() <= 50 by {
            if i > 0 {
                assert(b[i] == batches_of(rs.skip(50))[i - 1]);
            }
        }
    }
}

/// The sum of the sizes of some batches.
pub open spec fn sizes_sum<A>(bs: Seq<Seq<A>>) -> nat
    decreases bs.len(),
{
    if bs.len() == 0 {
        0
    } else {
        bs[0].len() + sizes_sum(bs.drop_first())
    }
}

/// The number of results in all batches that the workers' runs emit.
pub open spec fn emitted_total<A>(runs: Seq<Seq<A>>) -> nat
    decreases runs.len(),
{
    if runs.len() == 0 {
        0
    } else {
        sizes_sum(batches_of(runs[0])) + emitted_total(runs.drop_first())
    }
}

proof fn lemma_sizes_sum_flatten<A>(bs: Seq<Seq<A>>)
    ensures
        sizes_sum(bs) == bs.flatten().len(),
    decreases bs.len(),
{
    if bs.len() > 0 {
        lemma_sizes_sum_flatten(bs.drop_first());
        assert(bs.flatten() == bs[0] + bs.drop_first().flatten());
    }
}

/// Whatever the runs of the workers (each a worker's included results in
/// order), the batches they emit hold exactly as many results as the runs
/// together: the completion total is the number of included results.
pub proof fn lemma_workers_emit_all<A>(runs: Seq<Seq<A>>)
    ensures
        emitted_total(runs) == runs.flatten().len(),
    decreases runs.len(),
{
    if runs.len() > 0 {
        lemma_workers_emit_all(runs.drop_first());
        lemma_batches_cover(runs[0]);
        lemma_sizes_sum_flatten(batches_of(runs[0]));
        assert(runs.flatten() == runs[0] + runs.drop_first().flatten());
    }
}

/// A worker's buffer of results not yet emitted.
pub struct BatchBuffer {
    pub items: Vec<ScanResult>,
    /// Everything pushed so far.
    pub pushed: Ghost<Seq<ScanResult>>,
}

impl BatchBuffer {
    /// The buffer holds the results pushed since the last full batch.
    pub open spec fn wf(&self) -> bool {
        &&& self.items@.len() < 50
        &&& self.items@.len() <= self.pushed@.len()
        &&& (self.pushed@.len() - self.items@.len()) % 50 == 0
        &&& self.items@ == self.pushed@.skip(self.pushed@.len() - self.items@.len())
    }

    /// The batches emitted so far.
    pub open spec fn emitted(&self) -> Seq<Seq<ScanResult>> {
        batches_of(self.pushed@.take(self.pushed@.len() - self.items@.len()))
    }

    pub fn new() -> (r: BatchBuffer)
        ensures
            r.wf(),
            r.pushed@.len() == 0,
    {
        let r = BatchBuffer { items: Vec::new(), pushed: Ghost(Seq::empty()) };
        assert(r.items@ =~= r.pushed@.skip(0));
        r
    }

    /// Adds a result; returns the full batch to emit when the buffer reaches
    /// `BATCH_SIZE`.
    pub fn push(&mut self, r: ScanResult) -> (out: Option<Vec<ScanResult>>)
        requires
            old(self).wf(),
        ensures
            final(self).wf(),
            final(self).pushed@ == old(self).pushed@.push(r),
            match out {
                Some(b) => b@.len() == 50 && b@ == old(self).items@.push(r) && final(self).items@.len()
                    == 0 && final(self).emitted() == old(self).emitted().push(b@),
                None => final(self).items@ == old(self).items@.push(r) && final(self).emitted()
                    == old(self).emitted(),
            },
    {
        let ghost old_pushed = self.pushed@;
        let ghost k = old_pushed.len() - self.items@.len();
        self.items.push(r);
        self.pushed = Ghost(old_pushed.push(r));
        assert(self.pushed@.take(k) =~= old_pushed.take(k));
        assert(self.items@ =~= self.pushed@.skip(k));
        if self.items.len() >= BATCH_SIZE {
            let mut b: Vec<ScanResult> = Vec::new();
            std::mem::swap(&mut self.items, &mut b);
            proof {
                let p = self.pushed@;
                assert(p.take(p.len() as int) =~= p.take(k) + b@);
                lemma_batches_append(p.take(k), b@);
                assert(self.items@ =~= p.skip(p.len() as int));
            }
            Some(b)
        } else {
            None
        }
    }

    /// The non-empty remainder to emit at the end of the worker's chunk.
    /// With it, the emitted batches are exactly `batches_of` all pushed results.
    pub fn finish(self) -> (out: Option<Vec<ScanResult>>)
        requires
            self.wf(),
        ensures
            match out {
                Some(b) => b@ == self.items@ && b@.len() > 0 && self.emitted().push(b@)
                    == batches_of(self.pushed@),
                None => self.items@.len() == 0 && self.emitted() == batches_of(self.pushed@),
            },
    {
        let ghost p = self.pushed@;
        let ghost k = p.len() - self.items@.len();
        if self.items.len() == 0 {
            assert(p.take(k) =~= p);
            None
        } else {
            proof {
                assert(p.take(k) + self.items@ =~= p);
                lemma_batches_append(p.take(k), self.items@);
            }
            Some(self.items)
        }
    }
}

/// The counters that workers share: the next batch index and the number of
/// results emitted.
pub struct ScanProgress {
    pub next_batch: u64,
    pub emitted: u64,
}

impl ScanProgress {
    pub fn new() -> (r: ScanProgress)
        ensures
            r.next_batch == 0,
            r.emitted == 0,
    {
        ScanProgress { next_batch: 0, emitted: 0 }
    }

    /// Claims the next batch index for a batch of `count` results.
    pub fn claim(&mut self, count: u64) -> (idx: u64)
        requires
            old(self).next_batch < u64::MAX,
            old(self).emitted + count <= u64::MAX,
        ensures
            idx == old(self).next_batch,
            final(self).next_batch == old(self).next_batch + 1,
            final(self).emitted == old(self).emitted + count,
    {
        let idx = self.next_batch;
        self.next_batch = self.next_batch + 1;
        self.emitted = self.emitted + count;
        idx
    }
}

/// Workers for `n` files on a machine with `parallelism` hardware threads:
/// twice that, clamped to `4..=32`, and no more than `n`.
pub open spec fn workers_for(parallelism: int, n: int) -> int {
    let twice = 2 * parallelism;
    let t = if twice < 4 {
        4
    } else if twice > 32 {
        32
    } else {
        twice
    };
    if n < t {
        n
    } else {
        t
    }
}

pub fn worker_count(parallelism: usize, n: usize) -> (r: usize)
    ensures
        r as int == workers_for(parallelism as int, n as int),
{
    let twice: usize = if parallelism > 16 { 33 } else { parallelism * 2 };
    let t: usize = if twice < 4 {
        4
    } else if twice > 32 {
        32
    } else {
        twice
    };
    if n < t {
        n
    } else {
        t
    }
}

/// `ceil(n / workers)`.
pub open spec fn chunk_size(n: int, workers: int) -> int {
    (n + workers - 1) / workers
}

/// Splits `0..n` into contiguous, non-empty chunks of at most
/// `ceil(n / workers)` items, in order.
pub fn chunk_ranges(n: usize, workers: usize) -> (r: Vec<(usize, usize)>)
    requires
        workers > 0,
    ensures
        n == 0 ==> r@.len() == 0,
        n > 0 ==> r@.len() > 0 && r@[0].0 == 0 && r@.last().1 == n,
        forall|i: int| 0 <= i < r@.len() ==> #[trigger] r@[i].0 < r@[i].1,
        forall|i: int|
            0 <= i < r@.len() ==> #[trigger] r@[i].1 - r@[i].0 <= chunk_size(n as int, workers as int),
        forall|i: int| 0 <= i < r@.len() - 1 ==> #[trigger] r@[i].1 == r@[i + 1].0,
{
    let q = n / workers;
    let rem = n % workers;
    assert(q * workers + rem == n && 0 <= rem < workers && q <= n) by (nonlinear_arith)
        requires
            workers > 0,
            q == n / workers,
            rem == n % workers,
    ;
    assert(rem != 0 ==> q < n) by (nonlinear_arith)
        requires
            q * workers + rem == n,
            0 <= rem < workers,
            workers > 0,
            q <= n,
    ;
    let size: usize = if rem == 0 { q } else { q + 1 };
    assert(size as int == chunk_size(n as int, workers as int)) by (nonlinear_arith)
        requires
            workers > 0,
            q * workers + rem == n,
            0 <= rem < workers,
            size == if rem == 0 { q as int } else { q + 1 },
    ;
    assert(n > 0 ==> size > 0) by (nonlinear_arith)
        requires
            q * workers + rem == n,
            size == if rem == 0 { q as int } else { q + 1 },
            workers > 0,
            0 <= rem,
    ;
    let mut r: Vec<(usize, usize)> = Vec::new();
    let mut start: usize = 0;
    while start < n
        invariant
            start <= n,
            size as int == chunk_size(n as int, workers as int),
            n > 0 ==> size > 0,
            r@.len() > 0 ==> r@.last().1 == start,
            r@.len() == 0 ==> start == 0,
            r@.len() > 0 ==> r@[0].0 == 0,
            forall|i: int| 0 <= i < r@.len() ==> #[trigger] r@[i].0 < r@[i].1,
            forall|i: int| 0 <= i < r@.len() ==> #[trigger] r@[i].1 - r@[i].0 <= size,
            forall|i: int| 0 <= i < r@.len() - 1 ==> #[trigger] r@[i].1 == r@[i + 1].0,
        decreases n - start,
    {
        let end: usize = if n - start < size { n } else { start + size };
        r.push((start, end));
        start = end;
    }
    r
}

} // verus!
