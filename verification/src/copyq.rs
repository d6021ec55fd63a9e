//! The batching model of the concurrent copy engine: producers accumulate
//! work items into fixed-size batches pushed onto a shared queue, worker
//! threads drain the queue, and only aggregate statistics are meaningful.

use vstd::prelude::*;

verus! {

/// One unit of work for the copy engine.
#[derive(Debug, Clone)]
pub enum CopyEntry {
    /// Copy the regular file at `src` to `dst` with the source's mode.
    Copy { src: String, dst: String },
    /// Recreate at `dst` the symlink found at `src`, with the same target.
    RelativeLink { src: String, dst: String },
    /// Create at `dst` a symlink with the literal target text `src`.
    AbsoluteLink { src: String, dst: String },
}

#[verifier::ext_equal]
pub enum CopyEntryView {
    Copy { src: Seq<char>, dst: Seq<char> },
    RelativeLink { src: Seq<char>, dst: Seq<char> },
    AbsoluteLink { src: Seq<char>, dst: Seq<char> },
}

impl View for CopyEntry {
    type V = CopyEntryView;

    closed spec fn view(&self) -> CopyEntryView {
        match self {
            CopyEntry::Copy { src, dst } => CopyEntryView::Copy { src: src@, dst: dst@ },
            CopyEntry::RelativeLink { src, dst } => CopyEntryView::RelativeLink {
                src: src@,
                dst: dst@,
            },
            CopyEntry::AbsoluteLink { src, dst } => CopyEntryView::AbsoluteLink {
                src: src@,
                dst: dst@,
            },
        }
    }
}

impl DeepView for CopyEntry {
    type V = CopyEntryView;

    open spec fn deep_view(&self) -> CopyEntryView {
        self.view()
    }
}

/// Aggregate statistics of a copy run.
#[derive(Debug, Clone, Copy, PartialEq, Eq, Structural)]
pub struct CopyStats {
    pub files: u64,
    pub bytes: u64,
}

/// How many file copies a run over these entries counts: one per `Copy`
/// item, links counting nothing.
pub open spec fn files_of(es: Seq<CopyEntryView>) -> nat
    decreases es.len(),
{
    if es.len() == 0 {
        0
    } else {
        files_of(es.drop_last()) + (if es.last() is Copy {
            1nat
        } else {
            0nat
        })
    }
}

/// How many bytes a run over these entries moves, given the size of each
/// source file.
pub open spec fn bytes_of(es: Seq<CopyEntryView>, size: spec_fn(Seq<char>) -> nat) -> nat
    decreases es.len(),
{
    if es.len() == 0 {
        0
    } else {
        bytes_of(es.drop_last(), size) + (match es.last() {
            CopyEntryView::Copy { src, dst } => size(src),
            _ => 0,
        })
    }
}

/// The file count summed batch by batch.
pub open spec fn batch_files(bs: Seq<Seq<CopyEntryView>>) -> nat
    decreases bs.len(),
{
    if bs.len() == 0 {
        0
    } else {
        batch_files(bs.drop_last()) + files_of(bs.last())
    }
}

/// The byte count summed batch by batch.
pub open spec fn batch_bytes(bs: Seq<Seq<CopyEntryView>>, size: spec_fn(Seq<char>) -> nat) -> nat
    decreases bs.len(),
{
    if bs.len() == 0 {
        0
    } else {
        batch_bytes(bs.drop_last(), size) + bytes_of(bs.last(), size)
    }
}

proof fn lemma_files_of_concat(a: Seq<CopyEntryView>, b: Seq<CopyEntryView>)
    ensures
        files_of(a + b) == files_of(a) + files_of(b),
    decreases b.len(),
{
    if b.len() == 0 {
        assert(a + b =~= a);
    } else {
        lemma_files_of_concat(a, b.drop_last());
        assert((a + b).drop_last() =~= a + b.drop_last());
        assert((a + b).last() == b.last());
    }
}

proof fn lemma_bytes_of_concat(
    a: Seq<CopyEntryView>,
    b: Seq<CopyEntryView>,
    size: spec_fn(Seq<char>) -> nat,
)
    ensures
        bytes_of(a + b, size) == bytes_of(a, size) + bytes_of(b, size),
    decreases b.len(),
{
    if b.len() == 0 {
        assert(a + b =~= a);
    } else {
        lemma_bytes_of_concat(a, b.drop_last(), size);
        assert((a + b).drop_last() =~= a + b.drop_last());
        assert((a + b).last() == b.last());
    }
}

/// Summing statistics batch by batch equals summing over every submitted
/// item at once: however the items are cut into batches, and in whatever
/// order workers drain them, the aggregate counts only depend on the items
/// themselves.
pub proof fn lemma_batching_preserves_stats(
    bs: Seq<Seq<CopyEntryView>>,
    size: spec_fn(Seq<char>) -> nat,
)
    ensures
        batch_files(bs) == files_of(bs.flatten()),
        batch_bytes(bs, size) == bytes_of(bs.flatten(), size),
    decreases bs.len(),
{
    if bs.len() == 0 {
        assert(bs.flatten() =~= Seq::<CopyEntryView>::empty());
    } else {
        lemma_batching_preserves_stats(bs.drop_last(), size);
        assert(bs =~= bs.drop_last().push(bs.last()));
        bs.drop_last().lemma_flatten_and_flatten_alt_are_equivalent();
        bs.lemma_flatten_and_flatten_alt_are_equivalent();
        assert(bs.flatten() =~= bs.drop_last().flatten() + bs.last()) by {
            lemma_flatten_push(bs.drop_last(), bs.last());
        }
        lemma_files_of_concat(bs.drop_last().flatten(), bs.last());
        lemma_bytes_of_concat(bs.drop_last().flatten(), bs.last(), size);
    }
}

proof fn lemma_flatten_push(bs: Seq<Seq<CopyEntryView>>, b: Seq<CopyEntryView>)
    ensures
        bs.push(b).flatten() =~= bs.flatten() + b,
    decreases bs.len(),
{
    if bs.len() == 0 {
        assert(bs.push(b).drop_first() =~= Seq::<Seq<CopyEntryView>>::empty());
        assert(Seq::<Seq<CopyEntryView>>::empty().flatten() =~= Seq::<CopyEntryView>::empty());
        assert(bs.push(b).flatten() =~= b + Seq::<Seq<CopyEntryView>>::empty().flatten());
        assert(bs.flatten() =~= Seq::<CopyEntryView>::empty());
    } else {
        lemma_flatten_push(bs.drop_first(), b);
        assert(bs.push(b).drop_first() =~= bs.drop_first().push(b));
        assert(bs.push(b).flatten() =~= bs.push(b)[0] + bs.push(b).drop_first().flatten());
        assert(bs.push(b)[0] == bs[0]);
        assert(bs.flatten() =~= bs[0] + bs.drop_first().flatten());
    }
}

/// The producer side of the copy engine: work items accumulate into a
/// pending batch, flushed onto the queue once it reaches the configured
/// batch size or when the queue is finished.
#[derive(Debug)]
pub struct CopyQueue {
    threads: usize,
    batch: usize,
    pending: Vec<CopyEntry>,
    queued: Vec<Vec<CopyEntry>>,
}

impl CopyQueue {
    /// The batches pushed so far, in push order.
    pub closed spec fn batches(&self) -> Seq<Seq<CopyEntryView>> {
        self.queued.deep_view()
    }

    /// The items not yet flushed into a batch.
    pub closed spec fn pending_items(&self) -> Seq<CopyEntryView> {
        self.pending.deep_view()
    }

    /// Every item submitted so far, in submission order.
    pub open spec fn submitted(&self) -> Seq<CopyEntryView> {
        self.batches().flatten() + self.pending_items()
    }

    pub closed spec fn batch_size(&self) -> usize {
        self.batch
    }

    pub closed spec fn thread_count(&self) -> usize {
        self.threads
    }

    /// A pool configuration: the worker count and batch size are kept for
    /// the runtime that drains the queue.
    pub fn new(threads: usize, batch: usize) -> (r: CopyQueue)
        ensures
            r.thread_count() == threads,
            r.batch_size() == batch,
            r.batches() =~~= Seq::<Seq<CopyEntryView>>::empty(),
            r.pending_items() =~~= Seq::<CopyEntryView>::empty(),
    {
        CopyQueue { threads, batch, pending: Vec::new(), queued: Vec::new() }
    }

    pub fn threads(&self) -> (r: usize)
        ensures
            r == self.thread_count(),
    {
        self.threads
    }

    /// Flushes the pending batch onto the queue, even when it is empty.
    pub fn dispatch(&mut self)
        ensures
            final(self).batches() =~~= old(self).batches().push(old(self).pending_items()),
            final(self).pending_items() =~~= Seq::<CopyEntryView>::empty(),
            final(self).batch_size() == old(self).batch_size(),
            final(self).thread_count() == old(self).thread_count(),
            final(self).submitted() =~~= old(self).submitted(),
    {
        let mut pending: Vec<CopyEntry> = Vec::new();
        core::mem::swap(&mut pending, &mut self.pending);
        self.queued.push(pending);
        proof {
            lemma_flatten_push(old(self).batches(), old(self).pending_items());
        }
    }

    fn push_entry(&mut self, e: CopyEntry)
        ensures
            final(self).submitted() =~~= old(self).submitted().push(e@),
            final(self).batch_size() == old(self).batch_size(),
            final(self).thread_count() == old(self).thread_count(),
            final(self).pending_items().len() != final(self).batch_size(),
    {
        let ghost ev = e@;
        self.pending.push(e);
        proof {
            assert(self.pending_items() =~= old(self).pending_items().push(ev));
            assert(self.submitted() =~= old(self).submitted().push(ev));
        }
        if self.pending.len() == self.batch {
            self.dispatch();
        }
    }

    /// Schedules a file copy; the batch is flushed once it fills.
    pub fn push_copy(&mut self, src: String, dst: String)
        ensures
            final(self).submitted() =~~= old(self).submitted().push(
                CopyEntryView::Copy { src: src@, dst: dst@ },
            ),
            final(self).batch_size() == old(self).batch_size(),
            final(self).thread_count() == old(self).thread_count(),
    {
        self.push_entry(CopyEntry::Copy { src, dst });
    }

    /// Schedules recreating a symlink with its source's target text.
    pub fn push_relative_link(&mut self, src: String, dst: String)
        ensures
            final(self).submitted() =~~= old(self).submitted().push(
                CopyEntryView::RelativeLink { src: src@, dst: dst@ },
            ),
            final(self).batch_size() == old(self).batch_size(),
            final(self).thread_count() == old(self).thread_count(),
    {
        self.push_entry(CopyEntry::RelativeLink { src, dst });
    }

    /// Schedules creating a symlink with a literal target text.
    pub fn push_absolute_link(&mut self, src: String, dst: String)
        ensures
            final(self).submitted() =~~= old(self).submitted().push(
                CopyEntryView::AbsoluteLink { src: src@, dst: dst@ },
            ),
            final(self).batch_size() == old(self).batch_size(),
            final(self).thread_count() == old(self).thread_count(),
    {
        self.push_entry(CopyEntry::AbsoluteLink { src, dst });
    }

    /// Hands the filled batches to the runtime, keeping the pending
    /// partial batch for further pushes.
    pub fn take_ready(&mut self) -> (r: Vec<Vec<CopyEntry>>)
        ensures
            r.deep_view() =~~= old(self).batches(),
            final(self).batches() =~~= Seq::<Seq<CopyEntryView>>::empty(),
            final(self).pending_items() =~~= old(self).pending_items(),
            final(self).batch_size() == old(self).batch_size(),
            final(self).thread_count() == old(self).thread_count(),
    {
        let mut out: Vec<Vec<CopyEntry>> = Vec::new();
        core::mem::swap(&mut out, &mut self.queued);
        out
    }

    /// Flushes the remaining partial batch and hands every batch to the
    /// runtime, in push order.  Their flattening is exactly the submitted
    /// items, so the aggregate statistics of any drain of these batches
    /// are those of the submitted items, whatever the batch size or
    /// worker count.
    pub fn finish(self) -> (r: Vec<Vec<CopyEntry>>)
        ensures
            r.deep_view().flatten() =~~= self.submitted(),
    {
        let mut q = self;
        q.dispatch();
        proof {
            assert(q.batches().flatten() =~~= q.submitted());
            assert(q.queued.deep_view() == q.batches());
        }
        q.queued
    }
}

} // verus!
