//! Running counters of a copy run and the arithmetic behind the status line.

use vstd::prelude::*;
use vstd::arithmetic::div_mod::{
    lemma_div_is_ordered, lemma_div_multiples_vanish, lemma_fundamental_div_mod,
};
use crate::tiles::{TileRect, all_valid, total_size};

verus! {

/// A status line is considered only when the finished count has just crossed
/// a multiple of this many tiles ...
pub const PROGRESS_REPORT_AFTER: u64 = 100;

/// ... and at least this many milliseconds have passed since the last one.
pub const PROGRESS_REPORT_EVERY_MS: u64 = 2000;

/// Counters of one copy run: the planned `total` is fixed up front; `empty`
/// and `non_empty` grow by one per processed tile and never run past it.
pub struct Progress {
    pub total: u64,
    pub empty: u64,
    pub non_empty: u64,
}

/// Percent of the work done, with integer-floor semantics.
pub open spec fn spec_percent(done: int, total: int) -> int {
    done * 100 / total
}

/// The sum of rectangle sizes never shrinks as the list grows.
proof fn lemma_total_size_take(rs: Seq<TileRect>, i: int)
    requires
        0 <= i <= rs.len(),
    ensures
        total_size(rs.take(i)) <= total_size(rs),
    decreases rs.len() - i,
{
    if i == rs.len() {
        assert(rs.take(i) =~= rs);
    } else {
        lemma_total_size_take(rs, i + 1);
        assert(rs.take(i + 1).drop_last() =~= rs.take(i));
    }
}

impl Progress {
    pub open spec fn wf(self) -> bool {
        self.empty + self.non_empty <= self.total
    }

    /// Tiles processed so far.
    pub open spec fn spec_done(self) -> int {
        self.empty + self.non_empty
    }

    /// Fresh counters for a planned rectangle list; `total` is the number of
    /// tiles the run will process.
    pub fn new(tiles: &Vec<TileRect>) -> (p: Progress)
        requires
            all_valid(tiles@),
            total_size(tiles@) <= u64::MAX,
        ensures
            p.wf(),
            p.total == total_size(tiles@),
            p.empty == 0,
            p.non_empty == 0,
    {
        let mut total: u64 = 0;
        let mut i: usize = 0;
        while i < tiles.len()
            invariant
                i <= tiles@.len(),
                all_valid(tiles@),
                total_size(tiles@) <= u64::MAX,
                total == total_size(tiles@.take(i as int)),
            decreases tiles@.len() - i,
        {
            proof {
                assert(tiles@.take(i + 1 as int).drop_last() =~= tiles@.take(i as int));
                assert(tiles@.take(i + 1 as int).last() == tiles@[i as int]);
                lemma_total_size_take(tiles@, i + 1 as int);
            }
            total = total + tiles[i].size();
            i = i + 1;
        }
        proof {
            assert(tiles@.take(tiles@.len() as int) =~= tiles@);
        }
        Progress { total, empty: 0, non_empty: 0 }
    }

    /// The planned total if it fits a machine counter, `None` otherwise.
    pub fn try_total(tiles: &Vec<TileRect>) -> (r: Option<u64>)
        requires
            all_valid(tiles@),
        ensures
            match r {
                Some(n) => n == total_size(tiles@) && total_size(tiles@) <= u64::MAX,
                None => total_size(tiles@) > u64::MAX,
            },
    {
        let mut total: u64 = 0;
        let mut i: usize = 0;
        while i < tiles.len()
            invariant
                i <= tiles@.len(),
                all_valid(tiles@),
                total == total_size(tiles@.take(i as int)),
            decreases tiles@.len() - i,
        {
            proof {
                assert(tiles@.take(i + 1 as int).drop_last() =~= tiles@.take(i as int));
                assert(tiles@.take(i + 1 as int).last() == tiles@[i as int]);
            }
            let size = tiles[i].size();
            if size > u64::MAX - total {
                proof {
                    lemma_total_size_take(tiles@, i + 1 as int);
                }
                return None;
            }
            total = total + size;
            i = i + 1;
        }
        proof {
            assert(tiles@.take(tiles@.len() as int) =~= tiles@);
        }
        Some(total)
    }

    /// Count one tile that came back empty.
    pub fn inc_empty(&mut self)
        requires
            old(self).wf(),
            old(self).spec_done() < old(self).total,
        ensures
            final(self).wf(),
            final(self).empty == old(self).empty + 1,
            final(self).non_empty == old(self).non_empty,
            final(self).total == old(self).total,
    {
        self.empty = self.empty + 1;
    }

    /// Count one tile with content.
    pub fn inc_non_empty(&mut self)
        requires
            old(self).wf(),
            old(self).spec_done() < old(self).total,
        ensures
            final(self).wf(),
            final(self).non_empty == old(self).non_empty + 1,
            final(self).empty == old(self).empty,
            final(self).total == old(self).total,
    {
        self.non_empty = self.non_empty + 1;
    }

    /// Tiles processed so far.
    pub fn done(&self) -> (d: u64)
        requires
            self.wf(),
        ensures
            d == self.spec_done(),
    {
        self.empty + self.non_empty
    }

    /// Tiles still to process.
    pub fn left(&self) -> (l: u64)
        requires
            self.wf(),
        ensures
            l == self.total - self.spec_done(),
    {
        self.total - (self.empty + self.non_empty)
    }

    /// Percent of the work done, floored to a whole number.
    pub fn percent(&self) -> (p: u64)
        requires
            self.wf(),
            self.total > 0,
            self.total <= u64::MAX / 100,
        ensures
            p == spec_percent(self.spec_done(), self.total as int),
            p <= 100,
    {
        let done = self.empty + self.non_empty;
        proof {
            lemma_percent_complete(done as int, self.total as int);
        }
        done * 100 / self.total
    }
}

/// Law: the reported percentage never decreases as work proceeds.
pub proof fn lemma_percent_monotonic(d1: int, d2: int, total: int)
    requires
        0 <= d1 <= d2 <= total,
        0 < total,
    ensures
        spec_percent(d1, total) <= spec_percent(d2, total),
{
    lemma_div_is_ordered(d1 * 100, d2 * 100, total);
}

/// Law: the reported percentage stays within bounds and reaches exactly 100
/// only once everything is done.
pub proof fn lemma_percent_complete(done: int, total: int)
    requires
        0 <= done <= total,
        0 < total,
    ensures
        0 <= spec_percent(done, total) <= 100,
        spec_percent(done, total) == 100 <==> done == total,
{
    lemma_div_is_ordered(done * 100, total * 100, total);
    lemma_div_multiples_vanish(100, total);
    assert(total * 100 == 100 * total);
    vstd::arithmetic::div_mod::lemma_div_pos_is_pos(done * 100, total);
    if done < total {
        let q = done * 100 / total;
        lemma_fundamental_div_mod(done * 100, total);
        vstd::arithmetic::div_mod::lemma_mod_bound(done * 100, total);
        if q >= 100 {
            assert(false) by (nonlinear_arith)
                requires
                    done * 100 == total * q + (done * 100) % total,
                    0 <= (done * 100) % total,
                    q >= 100,
                    done < total,
                    0 < total,
            ;
        }
    }
}

/// Decide whether the consumer loop emits a status line now: only when the
/// count just crossed a multiple of `PROGRESS_REPORT_AFTER` (`prev_done` is
/// the counter before the record just processed) and the minimum interval has
/// passed since the last line.
pub fn should_report(prev_done: u64, millis_since_last_report: u64) -> (r: bool)
    ensures
        r == (prev_done % PROGRESS_REPORT_AFTER == (PROGRESS_REPORT_AFTER - 1) as u64
            && millis_since_last_report > PROGRESS_REPORT_EVERY_MS),
{
    prev_done % PROGRESS_REPORT_AFTER == PROGRESS_REPORT_AFTER - 1
        && millis_since_last_report > PROGRESS_REPORT_EVERY_MS
}

} // verus!
