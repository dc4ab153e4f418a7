//! A day-bucketed usage-counter aggregator: counters reported within one
//! day of the latest bucket are merged into it, later reports open a new
//! bucket.

use vstd::prelude::*;

verus! {

/// Nanoseconds in one day: the width of an aggregation bucket.
pub const ONE_DAY_NS: u64 = 1_000_000_000 * 60 * 60 * 24;

/// One report's usage counters.
#[derive(Clone, Copy, Debug, PartialEq, Eq, Structural)]
pub struct Data {
    pub login: u32,
    pub transfer: u32,
    pub origin_link: u32,
    pub origin_unlink: u32,
}

/// Whether the counter-wise sum of two reports stays within range.
pub open spec fn merge_fits(a: Data, b: Data) -> bool {
    &&& a.login + b.login <= u32::MAX
    &&& a.transfer + b.transfer <= u32::MAX
    &&& a.origin_link + b.origin_link <= u32::MAX
    &&& a.origin_unlink + b.origin_unlink <= u32::MAX
}

/// The counter-wise sum of two reports.
pub open spec fn merged(a: Data, b: Data) -> Data {
    Data {
        login: (a.login + b.login) as u32,
        transfer: (a.transfer + b.transfer) as u32,
        origin_link: (a.origin_link + b.origin_link) as u32,
        origin_unlink: (a.origin_unlink + b.origin_unlink) as u32,
    }
}

impl Data {
    /// Adds another report's counters onto this one.
    pub fn merge(&mut self, other: Data)
        requires
            merge_fits(*old(self), other),
        ensures
            *final(self) == merged(*old(self), other),
    {
        self.login = self.login + other.login;
        self.transfer = self.transfer + other.transfer;
        self.origin_link = self.origin_link + other.origin_link;
        self.origin_unlink = self.origin_unlink + other.origin_unlink;
    }
}

/// One day bucket: the counters collected since its opening timestamp.
#[derive(Clone, Copy, Debug, PartialEq, Eq, Structural)]
pub struct Statistics {
    pub timestamp: u64,
    pub data: Data,
}

/// The aggregator's whole state: day buckets, oldest first.
#[derive(Clone, Debug)]
pub struct StatisticsState {
    pub statistics: Vec<Statistics>,
}

impl StatisticsState {
    /// An aggregator with no buckets.
    pub fn new() -> (r: Self)
        ensures
            r.statistics@.len() == 0,
    {
        StatisticsState { statistics: Vec::new() }
    }

    /// Folds one report in: merged into the latest bucket when it arrives
    /// within a day of that bucket's opening, otherwise opening a new
    /// bucket stamped with the current time.
    pub fn increment_stats(&mut self, data: Data, now: u64)
        requires
            old(self).statistics@.len() > 0 ==> now >= old(self).statistics@.last().timestamp,
            (old(self).statistics@.len() > 0 && now - old(self).statistics@.last().timestamp
                < ONE_DAY_NS) ==> merge_fits(old(self).statistics@.last().data, data),
        ensures
            ({
                let pre = old(self).statistics@;
                if pre.len() == 0 || now - pre.last().timestamp >= ONE_DAY_NS {
                    final(self).statistics@ == pre.push(Statistics { timestamp: now, data })
                } else {
                    final(self).statistics@ == pre.update(
                        pre.len() - 1,
                        Statistics {
                            timestamp: pre.last().timestamp,
                            data: merged(pre.last().data, data),
                        },
                    )
                }
            }),
    {
        if self.statistics.len() == 0 {
            self.statistics.push(Statistics { timestamp: now, data });
            return ;
        }
        let last_idx = self.statistics.len() - 1;
        let last_entry = self.statistics[last_idx];
        if now - last_entry.timestamp >= ONE_DAY_NS {
            self.statistics.push(Statistics { timestamp: now, data });
        } else {
            let mut d = last_entry.data;
            d.merge(data);
            self.statistics[last_idx] = Statistics { timestamp: last_entry.timestamp, data: d };
        }
    }

    /// A copy of all buckets, oldest first.
    pub fn get_stats(&self) -> (r: Vec<Statistics>)
        ensures
            r@ == self.statistics@,
    {
        let mut r: Vec<Statistics> = Vec::new();
        let mut i: usize = 0;
        while i < self.statistics.len()
            invariant
                0 <= i <= self.statistics@.len(),
                r@ == self.statistics@.subrange(0, i as int),
            decreases self.statistics@.len() - i,
        {
            r.push(self.statistics[i]);
            proof {
                assert(r@ =~= self.statistics@.subrange(0, (i + 1) as int));
            }
            i += 1;
        }
        proof {
            assert(r@ =~= self.statistics@);
        }
        r
    }
}

impl Default for StatisticsState {
    /// An aggregator with no buckets.
    fn default() -> (r: Self)
        ensures
            r.statistics@.len() == 0,
    {
        StatisticsState::new()
    }
}

} // verus!
