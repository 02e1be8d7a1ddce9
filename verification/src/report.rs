//! Per-unit execution records and the report partition: cache misses (fetch
//! duration effectively zero) are separated from hits. Rendering the report
//! is the caller's concern; the partition itself is decided here.

use vstd::prelude::*;

use crate::seqs::lemma_filter_push;

verus! {

/// Mathematical value of an execution record.
pub struct StatsV {
    pub project: Seq<char>,
    pub command: Seq<char>,
    pub result: Seq<char>,
    pub fetch_duration: u64,
    pub run_duration: u64,
    pub cache_duration: u64,
}

/// One completed unit of work: project name, command, result payload, and
/// the three durations (cache fetch, command run, cache write), in
/// nanoseconds as the driver measured them.
pub struct ProjectStats {
    pub project: String,
    pub command: String,
    pub result: String,
    pub fetch_duration: u64,
    pub run_duration: u64,
    pub cache_duration: u64,
}

impl View for ProjectStats {
    type V = StatsV;

    open spec fn view(&self) -> StatsV {
        StatsV {
            project: self.project@,
            command: self.command@,
            result: self.result@,
            fetch_duration: self.fetch_duration,
            run_duration: self.run_duration,
            cache_duration: self.cache_duration,
        }
    }
}

impl Clone for ProjectStats {
    fn clone(&self) -> (r: Self)
        ensures
            r@ == self@,
    {
        ProjectStats {
            project: self.project.clone(),
            command: self.command.clone(),
            result: self.result.clone(),
            fetch_duration: self.fetch_duration,
            run_duration: self.run_duration,
            cache_duration: self.cache_duration,
        }
    }
}

/// The views of a record list.
pub open spec fn stats_views(s: Seq<ProjectStats>) -> Seq<StatsV> {
    s.map_values(|p: ProjectStats| p@)
}

/// A record counts as a cache miss when its fetch duration is effectively
/// zero.
pub open spec fn is_cache_miss(s: StatsV) -> bool {
    s.fetch_duration == 0
}

/// Partitions the records: keeps, in order, exactly those units that
/// counted as cache misses.
pub fn cache_misses(stats: &Vec<ProjectStats>) -> (r: Vec<ProjectStats>)
    ensures
        stats_views(r@) == stats_views(stats@).filter(|s: StatsV| is_cache_miss(s)),
{
    let mut out: Vec<ProjectStats> = Vec::new();
    let mut i: usize = 0;
    while i < stats.len()
        invariant
            i <= stats@.len(),
            stats_views(out@) == stats_views(stats@.subrange(0, i as int)).filter(
                |s: StatsV| is_cache_miss(s),
            ),
        decreases stats@.len() - i,
    {
        let ghost prev_views = stats_views(stats@.subrange(0, i as int));
        let ghost out_prev = stats_views(out@);
        let s = &stats[i];
        if s.fetch_duration == 0 {
            out.push(s.clone());
        }
        proof {
            assert(stats_views(stats@.subrange(0, i + 1)) =~= prev_views.push(stats@[i as int]@));
            lemma_filter_push(prev_views, |s: StatsV| is_cache_miss(s), stats@[i as int]@);
            if stats@[i as int]@.fetch_duration == 0 {
                assert(stats_views(out@) =~= out_prev.push(stats@[i as int]@));
            }
        }
        i += 1;
    }
    proof {
        assert(stats@.subrange(0, stats@.len() as int) =~= stats@);
    }
    out
}

} // verus!
