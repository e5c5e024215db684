//! The consumer stage of the copy pipeline: counting, batching, and flush
//! decisions for the records the fetch stage hands over.

use vstd::prelude::*;
use crate::progress::Progress;
use crate::tiles::TileCoord;

verus! {

/// A batch is flushed to the sink once it holds this many records ...
pub const BATCH_SIZE: usize = 1000;

/// ... or once this much time has passed since the last flush.
pub const SAVE_EVERY_MS: u64 = 60_000;

/// One fetched tile payload. An empty byte buffer means "no tile at this
/// coordinate": it is counted but never persisted.
pub struct TileRecord {
    pub coord: TileCoord,
    pub data: Vec<u8>,
}

/// The mathematical image of a record: its coordinate and its bytes.
pub open spec fn rec_view(r: TileRecord) -> (TileCoord, Seq<u8>) {
    (r.coord, r.data@)
}

pub open spec fn recs_view(s: Seq<TileRecord>) -> Seq<(TileCoord, Seq<u8>)> {
    s.map_values(|r: TileRecord| rec_view(r))
}

/// The subsequence of records that carry content, in arrival order.
pub open spec fn non_empty_views(s: Seq<(TileCoord, Seq<u8>)>) -> Seq<(TileCoord, Seq<u8>)>
    decreases s.len(),
{
    if s.len() == 0 {
        Seq::empty()
    } else if s.last().1.len() > 0 {
        non_empty_views(s.drop_last()).push(s.last())
    } else {
        non_empty_views(s.drop_last())
    }
}

/// The single consumer stage of the pipeline. It counts every record, queues
/// the non-empty ones, and decides when the queued batch goes to the sink.
/// `history` is the ghost trace of everything accepted; `flushed` the ghost
/// trace of everything already handed over for persisting.
pub struct Consumer {
    pub progress: Progress,
    pub batch: Vec<TileRecord>,
    pub history: Ghost<Seq<(TileCoord, Seq<u8>)>>,
    pub flushed: Ghost<Seq<(TileCoord, Seq<u8>)>>,
}

impl Consumer {
    /// Every record is counted in exactly one counter, and every non-empty
    /// record sits either in a flushed batch or in the pending one.
    pub open spec fn wf(self) -> bool {
        &&& self.progress.wf()
        &&& self.progress.spec_done() == self.history@.len()
        &&& self.progress.non_empty == non_empty_views(self.history@).len()
        &&& self.flushed@ + recs_view(self.batch@) == non_empty_views(self.history@)
    }

    pub fn new(progress: Progress) -> (c: Consumer)
        requires
            progress.wf(),
            progress.empty == 0,
            progress.non_empty == 0,
        ensures
            c.wf(),
            c.progress == progress,
            c.batch@.len() == 0,
            c.history@.len() == 0,
            c.flushed@.len() == 0,
    {
        let c = Consumer {
            progress,
            batch: Vec::new(),
            history: Ghost(Seq::empty()),
            flushed: Ghost(Seq::empty()),
        };
        proof {
            assert(recs_view(c.batch@) =~= Seq::<(TileCoord, Seq<u8>)>::empty());
            assert(c.flushed@ + recs_view(c.batch@) =~= non_empty_views(c.history@));
        }
        c
    }

    /// Take one record from the queue: an empty payload only bumps the empty
    /// counter; a non-empty one is queued for the sink and bumps the
    /// non-empty counter. Returns whether the batch must be flushed now — it
    /// reached `BATCH_SIZE` records, or more than `SAVE_EVERY_MS` has passed
    /// since the last flush.
    pub fn accept(&mut self, record: TileRecord, millis_since_flush: u64) -> (flush: bool)
        requires
            old(self).wf(),
            old(self).progress.spec_done() < old(self).progress.total,
        ensures
            final(self).wf(),
            final(self).progress.total == old(self).progress.total,
            final(self).history@ == old(self).history@.push(rec_view(record)),
            final(self).flushed@ == old(self).flushed@,
            record.data@.len() == 0 ==> final(self).progress.empty == old(self).progress.empty + 1
                && final(self).progress.non_empty == old(self).progress.non_empty
                && final(self).batch@ == old(self).batch@ && !flush,
            record.data@.len() > 0 ==> final(self).progress.non_empty == old(
                self).progress.non_empty + 1 && final(self).progress.empty == old(
                self).progress.empty && final(self).batch@ == old(self).batch@.push(record)
                && flush == (final(self).batch@.len() >= BATCH_SIZE || millis_since_flush
                > SAVE_EVERY_MS),
    {
        let ghost rv = rec_view(record);
        let ghost h0 = self.history@;
        proof {
            assert(h0.push(rv).drop_last() =~= h0);
        }
        if record.data.len() == 0 {
            self.progress.inc_empty();
            proof {
                self.history@ = h0.push(rv);
            }
            false
        } else {
            self.batch.push(record);
            self.progress.inc_non_empty();
            proof {
                self.history@ = h0.push(rv);
                assert(recs_view(self.batch@) =~= recs_view(old(self).batch@).push(rv));
                assert(self.flushed@ + recs_view(self.batch@) =~= non_empty_views(self.history@));
            }
            self.batch.len() >= BATCH_SIZE || millis_since_flush > SAVE_EVERY_MS
        }
    }

    /// Hand the pending batch over for persisting and clear it; the records
    /// move, in order, onto the flushed trace.
    pub fn take_batch(&mut self) -> (batch: Vec<TileRecord>)
        requires
            old(self).wf(),
        ensures
            final(self).wf(),
            batch@ == old(self).batch@,
            final(self).batch@.len() == 0,
            final(self).progress == old(self).progress,
            final(self).history@ == old(self).history@,
            final(self).flushed@ == old(self).flushed@ + recs_view(batch@),
    {
        let mut taken: Vec<TileRecord> = Vec::new();
        core::mem::swap(&mut self.batch, &mut taken);
        proof {
            self.flushed@ = self.flushed@ + recs_view(taken@);
            assert(recs_view(self.batch@) =~= Seq::<(TileCoord, Seq<u8>)>::empty());
            assert(self.flushed@ + recs_view(self.batch@) =~= non_empty_views(self.history@));
        }
        taken
    }
}

/// Law: once the history holds one record per planned tile, the two counters
/// add up to exactly the planned total.
pub proof fn lemma_completed_run_counts(c: Consumer)
    requires
        c.wf(),
        c.history@.len() == c.progress.total,
    ensures
        c.progress.empty + c.progress.non_empty == c.progress.total,
{
}

/// Law: at any point of a run, the flushed batches followed by the pending
/// batch are exactly the non-empty records, in arrival order — nothing is
/// lost, duplicated, or reordered on the way to the sink.
pub proof fn lemma_no_record_lost(c: Consumer)
    requires
        c.wf(),
    ensures
        c.flushed@ + recs_view(c.batch@) == non_empty_views(c.history@),
{
}

} // verus!
