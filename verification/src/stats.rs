//! Counting probe results: splitting them into up and down, the integer
//! parts of the per-chunk statistics, and the running totals over chunks.

use vstd::prelude::*;
use crate::pings::IpProperties;

verus! {

/// True for a probe result that found its address up.
pub open spec fn is_up(p: IpProperties) -> bool {
    p.up
}

/// True for a probe result that found its address down.
pub open spec fn is_down(p: IpProperties) -> bool {
    !p.up
}

/// The results that found their address up, in order.
pub open spec fn up_results(s: Seq<IpProperties>) -> Seq<IpProperties> {
    s.filter(|p: IpProperties| is_up(p))
}

/// The results that found their address down, in order.
pub open spec fn down_results(s: Seq<IpProperties>) -> Seq<IpProperties> {
    s.filter(|p: IpProperties| is_down(p))
}

/// Every result is either up or down.
pub proof fn lemma_up_down_cover(s: Seq<IpProperties>)
    ensures
        up_results(s).len() + down_results(s).len() == s.len(),
    decreases s.len(),
{
    reveal(Seq::filter);
    if s.len() > 0 {
        lemma_up_down_cover(s.drop_last());
    }
}

/// Splits probe results into those that found their address up and those that
/// found it down, each in the original order.
pub fn sort_up_from_down(properties: &Vec<IpProperties>) -> (split: (
    Vec<IpProperties>,
    Vec<IpProperties>,
))
    ensures
        split.0@ == up_results(properties@),
        split.1@ == down_results(properties@),
{
    let mut up: Vec<IpProperties> = Vec::new();
    let mut down: Vec<IpProperties> = Vec::new();
    let mut i: usize = 0;
    assert(properties@.take(0) =~= Seq::<IpProperties>::empty());
    while i < properties.len()
        invariant
            i <= properties@.len(),
            up@ == up_results(properties@.take(i as int)),
            down@ == down_results(properties@.take(i as int)),
        decreases properties@.len() - i,
    {
        let prop = &properties[i];
        proof {
            reveal(Seq::filter);
            assert(properties@.take(i + 1).drop_last() =~= properties@.take(i as int));
            assert(properties@.take(i + 1).last() == *prop);
        }
        if prop.up {
            up.push(prop.clone());
        } else {
            down.push(prop.clone());
        }
        i += 1;
    }
    assert(properties@.take(i as int) =~= properties@);
    (up, down)
}


/// The sum of the round-trip times (in milliseconds, each taken as an `i64`
/// the way `as` converts it) of the results that found their address up.
pub open spec fn up_rtt_sum(s: Seq<IpProperties>) -> int
    decreases s.len(),
{
    if s.len() == 0 {
        0
    } else {
        up_rtt_sum(s.drop_last()) + if s.last().up {
            (s.last().rtt_millis as i64) as int
        } else {
            0
        }
    }
}

/// True when summing the round-trip times of the up results, in order, never
/// leaves the range of `i64`.
pub open spec fn up_rtt_sum_fits(s: Seq<IpProperties>) -> bool {
    forall|i: int| 0 <= i <= s.len() ==> i64::MIN <= #[trigger] up_rtt_sum(s.take(i)) <= i64::MAX
}

/// A prefix has no more up results than the whole sequence.
pub proof fn lemma_up_results_prefix(s: Seq<IpProperties>, i: int)
    requires
        0 <= i <= s.len(),
    ensures
        up_results(s.take(i)).len() <= up_results(s).len(),
    decreases s.len(),
{
    reveal(Seq::filter);
    if i < s.len() {
        lemma_up_results_prefix(s.drop_last(), i);
        assert(s.drop_last().take(i) =~= s.take(i));
    } else {
        assert(s.take(i) =~= s);
    }
}

/// The sum of the round-trip times of the up results and how many there are:
/// the two integers from which the average round-trip time is computed.
/// `None` when the running sum leaves the range of `i64`, or the count that of
/// `i32`.
pub fn up_rtt_total(properties: &Vec<IpProperties>) -> (total: Option<(i64, i32)>)
    ensures
        match total {
            Some((sum, count)) => {
                &&& up_rtt_sum_fits(properties@)
                &&& up_results(properties@).len() <= i32::MAX
                &&& sum == up_rtt_sum(properties@)
                &&& count == up_results(properties@).len()
            },
            None => !(up_rtt_sum_fits(properties@) && up_results(properties@).len() <= i32::MAX),
        },
{
    let mut sum: i64 = 0;
    let mut count: i32 = 0;
    let mut i: usize = 0;
    assert(properties@.take(0) =~= Seq::<IpProperties>::empty());
    while i < properties.len()
        invariant
            i <= properties@.len(),
            forall|j: int| 0 <= j <= i ==> i64::MIN <= #[trigger] up_rtt_sum(properties@.take(j)) <= i64::MAX,
            sum == up_rtt_sum(properties@.take(i as int)),
            count == up_results(properties@.take(i as int)).len(),
        decreases properties@.len() - i,
    {
        let prop = &properties[i];
        proof {
            reveal(Seq::filter);
            assert(properties@.take(i + 1).drop_last() =~= properties@.take(i as int));
            assert(properties@.take(i + 1).last() == *prop);
            lemma_up_results_prefix(properties@, i + 1);
        }
        if prop.up {
            let next: i128 = sum as i128 + (prop.rtt_millis as i64) as i128;
            if next < i64::MIN as i128 || next > i64::MAX as i128 || count == i32::MAX {
                proof {
                    assert(up_rtt_sum(properties@.take(i + 1)) == next);
                    assert(up_results(properties@.take(i + 1)).len() == count + 1);
                    if !(next < i64::MIN as i128 || next > i64::MAX as i128) {
                        assert(up_results(properties@).len() > i32::MAX);
                    }
                }
                return None;
            }
            sum = next as i64;
            count = count + 1;
        }
        i += 1;
    }
    assert(properties@.take(i as int) =~= properties@);
    Some((sum, count))
}

/// The state before any chunk is recorded: nothing counted, and the chunk
/// counter at one.
pub open spec fn fresh_stats(s: RunningStats) -> bool {
    &&& s.up == 0
    &&& s.down == 0
    &&& s.ms_per_chunk == 0
    &&& s.treated_chunks == 1
}

/// True when `after` is `before` with one chunk recorded: `chunk` holds the
/// chunk's up count, down count and time in milliseconds. The up and down
/// totals grow by the chunk's, the average time per chunk takes the chunk's
/// time in with the weight of one chunk against the chunk counter (rounding
/// down), and the chunk counter grows by one.
pub open spec fn recorded(before: RunningStats, after: RunningStats, chunk: (usize, usize, u128)) -> bool {
    &&& after.up == before.up + chunk.0
    &&& after.down == before.down + chunk.1
    &&& after.ms_per_chunk == (before.ms_per_chunk * before.treated_chunks + chunk.2) / (
    before.treated_chunks + 1)
    &&& after.treated_chunks == before.treated_chunks + 1
}

/// The up counts of the chunks, added up.
pub open spec fn sum_up(chunks: Seq<(usize, usize, u128)>) -> int
    decreases chunks.len(),
{
    if chunks.len() == 0 {
        0
    } else {
        sum_up(chunks.drop_last()) + chunks.last().0
    }
}

/// The down counts of the chunks, added up.
pub open spec fn sum_down(chunks: Seq<(usize, usize, u128)>) -> int
    decreases chunks.len(),
{
    if chunks.len() == 0 {
        0
    } else {
        sum_down(chunks.drop_last()) + chunks.last().1
    }
}

/// Running totals over the chunks of addresses handled so far.
#[derive(Debug)]
pub struct RunningStats {
    /// Addresses found up.
    pub up: usize,
    /// Addresses found down.
    pub down: usize,
    /// Running average of the time taken per chunk, in milliseconds.
    pub ms_per_chunk: u128,
    /// One more than the number of chunks recorded.
    pub treated_chunks: usize,
}

impl RunningStats {
    /// The totals before any chunk: nothing counted, and the chunk counter at
    /// one.
    pub fn new() -> (s: RunningStats)
        ensures
            fresh_stats(s),
    {
        RunningStats { up: 0, down: 0, ms_per_chunk: 0, treated_chunks: 1 }
    }

    /// Adds one chunk's counts and time: the up and down totals grow by the
    /// chunk's, the average time per chunk takes the chunk's time in with the
    /// weight of one chunk against the chunk counter (rounding down), and the
    /// chunk counter grows by one.
    pub fn record_chunk(&mut self, up: usize, down: usize, ms: u128)
        requires
            old(self).up + up <= usize::MAX,
            old(self).down + down <= usize::MAX,
            old(self).ms_per_chunk * old(self).treated_chunks + ms <= u128::MAX,
            old(self).treated_chunks + 1 <= usize::MAX,
        ensures
            recorded(*old(self), *final(self), (up, down, ms)),
            final(self).up == old(self).up + up,
            final(self).down == old(self).down + down,
            final(self).ms_per_chunk == (old(self).ms_per_chunk * old(self).treated_chunks + ms) / (
            old(self).treated_chunks + 1),
            final(self).treated_chunks == old(self).treated_chunks + 1,
    {
        self.up = self.up + up;
        self.down = self.down + down;
        let treated = self.treated_chunks as u128;
        self.ms_per_chunk = (self.ms_per_chunk * treated + ms) / (treated + 1);
        self.treated_chunks = self.treated_chunks + 1;
    }

    /// The number of addresses counted, up or down.
    pub fn total(&self) -> (n: usize)
        requires
            self.up + self.down <= usize::MAX,
        ensures
            n == self.up + self.down,
    {
        self.up + self.down
    }
}

/// Whether the running totals are due to be reported: once every 32 chunks,
/// that is when the number of addresses counted is a multiple of 32 chunks'
/// worth.
pub fn report_due(total: usize, chunk_size: usize) -> (due: bool)
    requires
        chunk_size > 0,
        chunk_size * 32 <= usize::MAX,
    ensures
        due == (total as int % (chunk_size * 32) == 0),
{
    total % (chunk_size * 32) == 0
}


/// Splitting probe results loses none and invents none: the up part holds
/// only up results, the down part only down results, each result lands in
/// the part its flag names, and the two parts together are as long as the
/// results.
pub proof fn law_partition(s: Seq<IpProperties>)
    ensures
        up_results(s).len() + down_results(s).len() == s.len(),
        forall|i: int| 0 <= i < up_results(s).len() ==> (#[trigger] up_results(s)[i]).up,
        forall|i: int| 0 <= i < down_results(s).len() ==> !(#[trigger] down_results(s)[i]).up,
        forall|k: int| 0 <= k < s.len() && s[k].up ==> up_results(s).contains(#[trigger] s[k]),
        forall|k: int| 0 <= k < s.len() && !s[k].up ==> down_results(s).contains(#[trigger] s[k]),
{
    broadcast use vstd::seq_lib::group_filter_ensures;

    lemma_up_down_cover(s);
    assert forall|i: int| 0 <= i < up_results(s).len() implies (#[trigger] up_results(s)[i]).up by {
        assert(is_up(up_results(s)[i]));
    }
    assert forall|i: int| 0 <= i < down_results(s).len() implies !(#[trigger] down_results(s)[i]).up by {
        assert(is_down(down_results(s)[i]));
    }
}


/// After the first `i` chunks, the totals are the sums of those chunks' counts
/// and the chunk counter is `i + 1`.
proof fn lemma_totals_after(states: Seq<RunningStats>, chunks: Seq<(usize, usize, u128)>, i: int)
    requires
        states.len() == chunks.len() + 1,
        fresh_stats(states[0]),
        forall|k: int|
            0 <= k < chunks.len() ==> #[trigger] recorded(states[k], states[k + 1], chunks[k]),
        0 <= i <= chunks.len(),
    ensures
        states[i].up == sum_up(chunks.take(i)),
        states[i].down == sum_down(chunks.take(i)),
        states[i].treated_chunks == i + 1,
    decreases i,
{
    if i == 0 {
        assert(chunks.take(0) =~= Seq::<(usize, usize, u128)>::empty());
    } else {
        lemma_totals_after(states, chunks, i - 1);
        assert(recorded(states[i - 1], states[i], chunks[i - 1]));
        assert(chunks.take(i).drop_last() =~= chunks.take(i - 1));
        assert(chunks.take(i).last() == chunks[i - 1]);
    }
}

/// The totals never go down from one state to a later one.
proof fn lemma_totals_grow(states: Seq<RunningStats>, chunks: Seq<(usize, usize, u128)>, i: int, j: int)
    requires
        states.len() == chunks.len() + 1,
        forall|k: int|
            0 <= k < chunks.len() ==> #[trigger] recorded(states[k], states[k + 1], chunks[k]),
        0 <= i <= j < states.len(),
    ensures
        states[i].up <= states[j].up,
        states[i].down <= states[j].down,
    decreases j - i,
{
    if i < j {
        lemma_totals_grow(states, chunks, i, j - 1);
        let k = j - 1;
        assert(recorded(states[k], states[k + 1], chunks[k]));
    }
}

/// Recording chunks one after another from the fresh state: after each chunk
/// the up and down totals are the sums of the chunks recorded so far, the
/// chunk counter is one more than their number, and the totals never go down.
pub proof fn law_running_totals(states: Seq<RunningStats>, chunks: Seq<(usize, usize, u128)>)
    requires
        states.len() == chunks.len() + 1,
        fresh_stats(states[0]),
        forall|k: int|
            0 <= k < chunks.len() ==> #[trigger] recorded(states[k], states[k + 1], chunks[k]),
    ensures
        forall|i: int|
            0 <= i <= chunks.len() ==> {
                &&& (#[trigger] states[i]).up == sum_up(chunks.take(i))
                &&& states[i].down == sum_down(chunks.take(i))
                &&& states[i].treated_chunks == i + 1
            },
        forall|i: int, j: int|
            0 <= i <= j < states.len() ==> {
                &&& (#[trigger] states[i]).up <= (#[trigger] states[j]).up
                &&& states[i].down <= states[j].down
            },
{
    assert forall|i: int| 0 <= i <= chunks.len() implies {
        &&& (#[trigger] states[i]).up == sum_up(chunks.take(i))
        &&& states[i].down == sum_down(chunks.take(i))
        &&& states[i].treated_chunks == i + 1
    } by {
        lemma_totals_after(states, chunks, i);
    }
    assert forall|i: int, j: int| 0 <= i <= j < states.len() implies {
        &&& (#[trigger] states[i]).up <= (#[trigger] states[j]).up
        &&& states[i].down <= states[j].down
    } by {
        lemma_totals_grow(states, chunks, i, j);
    }
}

/// The first `j` chunks of `n` addresses each count `j * n` addresses.
proof fn lemma_chunk_sizes_add_up(chunks: Seq<(usize, usize, u128)>, n: int, j: int)
    requires
        forall|k: int| 0 <= k < chunks.len() ==> (#[trigger] chunks[k]).0 + chunks[k].1 == n,
        0 <= j <= chunks.len(),
    ensures
        sum_up(chunks.take(j)) + sum_down(chunks.take(j)) == j * n,
    decreases j,
{
    if j == 0 {
        assert(chunks.take(0) =~= Seq::<(usize, usize, u128)>::empty());
    } else {
        lemma_chunk_sizes_add_up(chunks, n, j - 1);
        assert(chunks.take(j).drop_last() =~= chunks.take(j - 1));
        assert(chunks.take(j).last() == chunks[j - 1]);
        assert(j * n == (j - 1) * n + n) by (nonlinear_arith);
    }
}

/// `j * n` is a multiple of `32 * n` exactly when `j` is a multiple of 32.
proof fn lemma_multiple_of_32_chunks(j: int, n: int)
    requires
        j >= 0,
        n > 0,
    ensures
        (j * n) % (n * 32) == 0 <==> j % 32 == 0,
{
    let q = j / 32;
    let r = j % 32;
    assert(j == 32 * q + r && 0 <= r < 32);
    assert(j * n == (n * 32) * q + r * n) by (nonlinear_arith)
        requires
            j == 32 * q + r,
    ;
    assert(0 <= r * n < n * 32) by (nonlinear_arith)
        requires
            0 <= r < 32,
            n > 0,
    ;
    assert(r * n == 0 <==> r == 0) by (nonlinear_arith)
        requires
            n > 0,
            r >= 0,
    ;
    vstd::arithmetic::div_mod::lemma_fundamental_div_mod_converse(
        j * n,
        n * 32,
        q,
        r * n,
    );
}

/// With chunks of the same size `n`, recorded one after another from the
/// fresh state, the totals are due to be reported (`report_due`: the number of
/// addresses counted is a multiple of 32 chunks' worth) exactly after every
/// 32nd chunk.
pub proof fn law_report_every_32_chunks(
    states: Seq<RunningStats>,
    chunks: Seq<(usize, usize, u128)>,
    n: int,
)
    requires
        n > 0,
        states.len() == chunks.len() + 1,
        fresh_stats(states[0]),
        forall|k: int|
            0 <= k < chunks.len() ==> #[trigger] recorded(states[k], states[k + 1], chunks[k]),
        forall|k: int| 0 <= k < chunks.len() ==> (#[trigger] chunks[k]).0 + chunks[k].1 == n,
    ensures
        forall|j: int|
            0 <= j <= chunks.len() ==> (((#[trigger] states[j]).up + states[j].down) % (n * 32) == 0
                <==> j % 32 == 0),
{
    assert forall|j: int| 0 <= j <= chunks.len() implies (((#[trigger] states[j]).up
        + states[j].down) % (n * 32) == 0 <==> j % 32 == 0) by {
        lemma_totals_after(states, chunks, j);
        lemma_chunk_sizes_add_up(chunks, n, j);
        lemma_multiple_of_32_chunks(j, n);
    }
}

/// One step of the running average: the old average, weighted by the chunk
/// counter `n`, and the chunk's time `c`, divided by `n + 1` (rounding down).
/// A time below the average by more than the counter lowers it; a time above
/// it by more than the counter raises it.
proof fn lemma_average_step(m: int, n: int, c: int)
    by (nonlinear_arith)
    requires
        n >= 1,
        m >= 0,
        c >= 0,
    ensures
        c + n + 1 <= m ==> (m * n + c) / (n + 1) < m,
        c >= m + n + 1 ==> (m * n + c) / (n + 1) > m,
{
}

/// The running average time per chunk: recording the chunks one after
/// another from the fresh state, the chunk at position `i` sets the average to
/// the old average weighted by `i + 1` plus the chunk's time, divided by
/// `i + 2` (rounding down), whether that time is above or below the average.
/// So a chunk faster than the average by more than the counter lowers the
/// average, and one slower by more than the counter raises it.
pub proof fn law_running_average(states: Seq<RunningStats>, chunks: Seq<(usize, usize, u128)>)
    requires
        states.len() == chunks.len() + 1,
        fresh_stats(states[0]),
        forall|k: int|
            0 <= k < chunks.len() ==> #[trigger] recorded(states[k], states[k + 1], chunks[k]),
    ensures
        states[0].ms_per_chunk == 0,
        forall|i: int|
            0 <= i < chunks.len() ==> states[i + 1].ms_per_chunk == (states[i].ms_per_chunk * (i
                + 1) + (#[trigger] chunks[i]).2) / (i + 2),
        forall|i: int|
            0 <= i < chunks.len() && (#[trigger] chunks[i]).2 + i + 2 <= states[i].ms_per_chunk
                ==> states[i + 1].ms_per_chunk < states[i].ms_per_chunk,
        forall|i: int|
            0 <= i < chunks.len() && (#[trigger] chunks[i]).2 >= states[i].ms_per_chunk + i + 2
                ==> states[i + 1].ms_per_chunk > states[i].ms_per_chunk,
{
    assert forall|i: int| 0 <= i < chunks.len() implies {
        &&& states[i + 1].ms_per_chunk == (states[i].ms_per_chunk * (i + 1) + (
        #[trigger] chunks[i]).2) / (i + 2)
        &&& chunks[i].2 + i + 2 <= states[i].ms_per_chunk ==> states[i + 1].ms_per_chunk
            < states[i].ms_per_chunk
        &&& chunks[i].2 >= states[i].ms_per_chunk + i + 2 ==> states[i + 1].ms_per_chunk
            > states[i].ms_per_chunk
    } by {
        lemma_totals_after(states, chunks, i);
        let k = i;
        assert(recorded(states[k], states[k + 1], chunks[k]));
        lemma_average_step(states[i].ms_per_chunk as int, i + 1, chunks[i].2 as int);
    }
}

} // verus!
