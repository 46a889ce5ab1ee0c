//! Preparing and dispatching a run: the port list of a full scan, how the
//! addresses are shuffled and cut into the chunks that worker threads take
//! in turn, and the dispatcher's decisions.

use vstd::prelude::*;

verus! {

/// The highest port number.
pub const MAX_PORT: u16 = 65535;

/// Every port from 1 to 65535, in ascending order.
pub fn full_port_range() -> (ports: Vec<u16>)
    ensures
        ports@.len() == 65535,
        forall|k: int| 0 <= k < 65535 ==> #[trigger] ports@[k] == k + 1,
{
    let mut ports: Vec<u16> = Vec::new();
    let mut p: u16 = 1;
    loop
        invariant_except_break
            1 <= p,
            ports@.len() == p - 1,
            forall|k: int| 0 <= k < ports@.len() ==> #[trigger] ports@[k] == k + 1,
        ensures
            ports@.len() == 65535,
            forall|k: int| 0 <= k < ports@.len() ==> #[trigger] ports@[k] == k + 1,
        decreases 65535 - p,
    {
        ports.push(p);
        if p == MAX_PORT {
            break;
        }
        p = p + 1;
    }
    ports
}

/// How many chunks of at most `bite` addresses `n` addresses make: `n / bite`
/// rounded up.
pub open spec fn chunk_count(n: nat, bite: nat) -> nat {
    ((n + bite - 1) / (bite as int)) as nat
}

/// The `k`-th chunk of `s` cut into pieces of `bite` addresses: the addresses
/// from position `k * bite` up to `(k + 1) * bite`, or up to the end of `s`
/// for the last chunk.
pub open spec fn chunk_of(s: Seq<u32>, bite: nat, k: int) -> Seq<u32> {
    let start = k * bite;
    let end = if start + bite <= s.len() {
        start + bite
    } else {
        s.len() as int
    };
    s.subrange(start, end)
}

/// True when `chunks` are `s` cut into consecutive chunks of `bite`
/// addresses, from its start, the last one possibly shorter: every address
/// is in exactly one chunk.
pub open spec fn chunks_cover(chunks: Seq<Seq<u32>>, s: Seq<u32>, bite: nat) -> bool {
    &&& chunks.len() == chunk_count(s.len(), bite)
    &&& forall|k: int| 0 <= k < chunks.len() ==> #[trigger] chunks[k] == chunk_of(s, bite, k)
}

/// The number of chunks: enough to reach the end, and the last one starts
/// before the end.
proof fn lemma_chunk_count(n: nat, bite: nat)
    requires
        bite > 0,
    ensures
        chunk_count(n, bite) * bite >= n,
        chunk_count(n, bite) == 0 <==> n == 0,
        chunk_count(n, bite) > 0 ==> (chunk_count(n, bite) - 1) * bite < n,
{
    let c = chunk_count(n, bite);
    assert(c * bite >= n && (c == 0 <==> n == 0) && (c > 0 ==> (c - 1) * bite < n))
        by (nonlinear_arith)
        requires
            bite > 0,
            c == (n + bite - 1) / (bite as int),
    ;
}

/// A chunk that starts before the end of the addresses.
proof fn lemma_chunk_start(n: nat, bite: nat, k: int)
    requires
        bite > 0,
        0 <= k < chunk_count(n, bite),
    ensures
        0 <= k * bite < n,
        (k + 1) * bite == k * bite + bite,
{
    lemma_chunk_count(n, bite);
    let c = chunk_count(n, bite);
    assert(0 <= k * bite <= (c - 1) * bite) by (nonlinear_arith)
        requires
            0 <= k <= c - 1,
    ;
    assert((k + 1) * bite == k * bite + bite) by (nonlinear_arith);
}

/// Cuts `ips` into consecutive chunks of `bite` addresses, the last one
/// possibly shorter, as `chunks` does: every address lands in exactly one
/// chunk, in order.
pub fn chunk_ips(ips: &Vec<u32>, bite: usize) -> (chunks: Vec<Vec<u32>>)
    requires
        bite > 0,
    ensures
        chunks_cover(chunks@.map_values(|c: Vec<u32>| c@), ips@, bite as nat),
{
    let n = ips.len();
    let mut chunks: Vec<Vec<u32>> = Vec::new();
    let mut k: usize = 0;
    let mut start: usize = 0;
    while start < n
        invariant
            n == ips@.len(),
            bite > 0,
            start <= n,
            k <= start,
            start == (if k * bite <= n { k * bite } else { n as int }),
            k > 0 ==> (k - 1) * bite < n,
            chunks@.len() == k,
            forall|j: int| 0 <= j < k ==> #[trigger] chunks@[j]@ == chunk_of(ips@, bite as nat, j),
        decreases n - start,
    {
        assert(k * bite == start);
        let end: usize = if n - start >= bite { start + bite } else { n };
        let mut chunk: Vec<u32> = Vec::new();
        let mut j: usize = start;
        while j < end
            invariant
                n == ips@.len(),
                start <= j <= end,
                end <= n,
                chunk@ == ips@.subrange(start as int, j as int),
            decreases end - j,
        {
            chunk.push(ips[j]);
            assert(ips@.subrange(start as int, j + 1) =~= ips@.subrange(start as int, j as int).push(
                ips@[j as int],
            ));
            j += 1;
        }
        assert(chunk@ == chunk_of(ips@, bite as nat, k as int));
        chunks.push(chunk);
        assert((k + 1) * bite == k * bite + bite) by (nonlinear_arith);
        start = end;
        k += 1;
    }
    assert(k == chunk_count(n as nat, bite as nat)) by (nonlinear_arith)
        requires
            bite > 0,
            k * bite >= n,
            k > 0 ==> (k - 1) * bite < n,
    ;
    assert(chunks@.map_values(|c: Vec<u32>| c@).len() == k);
    chunks
}

/// How the addresses of a run are handed out.
#[derive(Debug)]
pub enum WorkPlan {
    /// All addresses, probed by one thread.
    Single(Vec<u32>),
    /// Chunks of addresses, each probed by a worker thread.
    Chunked(Vec<Vec<u32>>),
}

/// True when `plan` is how a run with `threads` threads and chunks of `bite`
/// addresses hands out the addresses of `order`: one thread takes them all
/// when one thread is asked for or when there are fewer addresses than one
/// chunk holds; otherwise the chunks, which together hold every address (the
/// last one possibly shorter), go to the workers.
pub open spec fn plan_is(plan: WorkPlan, order: Seq<u32>, threads: usize, bite: usize) -> bool {
    match plan {
        WorkPlan::Single(ips) => ips@ == order && (threads == 1 || order.len() < bite),
        WorkPlan::Chunked(chunks) => {
            &&& threads != 1
            &&& bite <= order.len()
            &&& chunks_cover(chunks@.map_values(|c: Vec<u32>| c@), order, bite as nat)
        },
    }
}

/// Hands out the addresses, in the order given, for a run with `threads`
/// threads and chunks of `bite` addresses.
pub fn plan_from_order(order: Vec<u32>, threads: usize, bite: usize) -> (plan: WorkPlan)
    requires
        threads == 1 || bite > 0,
    ensures
        plan_is(plan, order@, threads, bite),
{
    if threads == 1 || order.len() < bite {
        return WorkPlan::Single(order);
    }
    let chunks = chunk_ips(&order, bite);
    WorkPlan::Chunked(chunks)
}

/// Reorders `ips` at random, with `SliceRandom::shuffle` of the `rand` crate
/// and the thread-local generator from `rand::thread_rng`. The shuffle swaps
/// elements only, so the same addresses come out, each as often as it went
/// in; which order comes out depends on chance and is not stated.
#[verifier::external_body]
fn shuffle_ips(ips: &mut Vec<u32>)
    ensures
        final(ips)@.len() == old(ips)@.len(),
        final(ips)@.to_multiset() == old(ips)@.to_multiset(),
{
    let mut rng = rand::thread_rng();
    rand::seq::SliceRandom::shuffle(ips.as_mut_slice(), &mut rng);
}

/// Shuffles the addresses of a run and hands them out for `threads` threads
/// and chunks of `bite` addresses: the plan is that of some reordering of
/// `ips` that holds each address as often as `ips` does.
pub fn plan_work(ips: Vec<u32>, threads: usize, bite: usize) -> (plan: WorkPlan)
    requires
        threads == 1 || bite > 0,
    ensures
        exists|order: Seq<u32>|
            {
                &&& order.len() == ips@.len()
                &&& order.to_multiset() == ips@.to_multiset()
                &&& plan_is(plan, order, threads, bite)
            },
{
    let mut order = ips;
    shuffle_ips(&mut order);
    let ghost shuffled = order@;
    let plan = plan_from_order(order, threads, bite);
    assert(plan_is(plan, shuffled, threads, bite));
    plan
}


/// What the dispatcher of worker threads does next.
#[derive(Clone, Copy, Debug, PartialEq, Eq)]
pub enum PoolAction {
    /// Start a worker on the next pending chunk.
    Spawn,
    /// Wait for a running worker to finish and take in its results.
    Collect,
    /// Nothing is pending or running: the run is over.
    Finish,
}

/// The next step of handing out `pending` chunks to at most `capacity`
/// workers while `running` are at work: start a worker while a chunk is
/// pending and a slot is free; otherwise take in a finished worker's results;
/// stop when nothing is pending or running.
pub open spec fn pool_action(pending: nat, running: nat, capacity: nat) -> PoolAction {
    if pending > 0 && running < capacity {
        PoolAction::Spawn
    } else if running > 0 {
        PoolAction::Collect
    } else {
        PoolAction::Finish
    }
}

/// Decides the next step of the dispatcher of worker threads.
pub fn pool_next(pending: usize, running: usize, capacity: usize) -> (action: PoolAction)
    requires
        capacity > 0,
        running <= capacity,
    ensures
        action == pool_action(pending as nat, running as nat, capacity as nat),
        action == PoolAction::Finish <==> (pending == 0 && running == 0),
{
    if pending > 0 && running < capacity {
        PoolAction::Spawn
    } else if running > 0 {
        PoolAction::Collect
    } else {
        PoolAction::Finish
    }
}

/// How many workers a run of the dispatcher starts and how many it takes in,
/// from `pending` chunks and `running` workers, stepping by `pool_action`
/// (starting a worker takes a chunk; taking one in frees its slot).
pub open spec fn pool_run(pending: nat, running: nat, capacity: nat) -> (nat, nat)
    decreases 2 * pending + running,
{
    if capacity == 0 || running > capacity {
        (0, 0)
    } else {
        match pool_action(pending, running, capacity) {
            PoolAction::Spawn => {
                let rest = pool_run((pending - 1) as nat, running + 1, capacity);
                (rest.0 + 1, rest.1)
            },
            PoolAction::Collect => {
                let rest = pool_run(pending, (running - 1) as nat, capacity);
                (rest.0, rest.1 + 1)
            },
            PoolAction::Finish => (0, 0),
        }
    }
}

/// The dispatcher hands out every chunk: from `pending` chunks and `running`
/// workers, it starts one worker per pending chunk and takes in the results of
/// every worker, those already running and those it starts.
pub proof fn law_pool_runs_every_chunk(pending: nat, running: nat, capacity: nat)
    requires
        capacity > 0,
        running <= capacity,
    ensures
        pool_run(pending, running, capacity) == (pending, pending + running),
    decreases 2 * pending + running,
{
    match pool_action(pending, running, capacity) {
        PoolAction::Spawn => {
            law_pool_runs_every_chunk((pending - 1) as nat, running + 1, capacity);
        },
        PoolAction::Collect => {
            law_pool_runs_every_chunk(pending, (running - 1) as nat, capacity);
        },
        PoolAction::Finish => {},
    }
}

/// The addresses of consecutive chunks, one chunk after the other.
pub open spec fn concat_chunks(chunks: Seq<Seq<u32>>) -> Seq<u32>
    decreases chunks.len(),
{
    if chunks.len() == 0 {
        Seq::<u32>::empty()
    } else {
        concat_chunks(chunks.drop_last()) + chunks.last()
    }
}

/// The first `k` chunks, one after the other, are the start of the addresses
/// up to where the `k`-th chunk ends.
proof fn lemma_concat_chunks(chunks: Seq<Seq<u32>>, s: Seq<u32>, bite: nat, k: int)
    requires
        bite > 0,
        chunks_cover(chunks, s, bite),
        0 <= k <= chunks.len(),
    ensures
        concat_chunks(chunks.take(k)) == s.take(if k * bite <= s.len() { k * bite } else { s.len() as int }),
    decreases k,
{
    if k == 0 {
        assert(chunks.take(0) =~= Seq::<Seq<u32>>::empty());
        assert(s.take(0) =~= Seq::<u32>::empty());
        assert(0 * bite == 0);
    } else {
        lemma_concat_chunks(chunks, s, bite, k - 1);
        lemma_chunk_start(s.len(), bite, k - 1);
        assert(chunks.take(k).drop_last() =~= chunks.take(k - 1));
        assert(chunks.take(k).last() == chunks[k - 1]);
        assert(chunks[k - 1] == chunk_of(s, bite, k - 1));
        assert(k * bite == (k - 1) * bite + bite) by (nonlinear_arith);
        assert(concat_chunks(chunks.take(k)) =~= s.take(
            if k * bite <= s.len() { k * bite } else { s.len() as int },
        ));
    }
}

/// Cutting into chunks keeps every address, in order: the chunks, one after
/// the other, are the addresses; every chunk but the last holds exactly
/// `bite` of them and the last holds between one and `bite`.
pub proof fn law_chunks_keep_order(chunks: Seq<Seq<u32>>, s: Seq<u32>, bite: nat)
    requires
        bite > 0,
        chunks_cover(chunks, s, bite),
    ensures
        concat_chunks(chunks) == s,
        forall|k: int| 0 <= k < chunks.len() - 1 ==> (#[trigger] chunks[k]).len() == bite,
        chunks.len() > 0 ==> 1 <= chunks.last().len() <= bite,
{
    lemma_chunk_count(s.len(), bite);
    lemma_concat_chunks(chunks, s, bite, chunks.len() as int);
    assert(chunks.take(chunks.len() as int) =~= chunks);
    assert(s.take(s.len() as int) =~= s);
    assert forall|k: int| 0 <= k < chunks.len() - 1 implies (#[trigger] chunks[k]).len() == bite by {
        lemma_chunk_start(s.len(), bite, k);
        lemma_chunk_start(s.len(), bite, k + 1);
        assert((k + 1) * bite < s.len());
    }
    if chunks.len() > 0 {
        lemma_chunk_start(s.len(), bite, chunks.len() - 1);
    }
}

} // verus!
