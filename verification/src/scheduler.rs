//! Job planning: which stages run, replay or are skipped, how a stage's result
//! is judged, and what a finished job reports.

use vstd::prelude::*;

verus! {

/// What a job does with one stage.
#[derive(Clone, Copy, Debug, PartialEq, Eq, Structural)]
pub enum Plan {
    /// Run the operator.
    Run,
    /// Re-emit the stored outputs.
    Replay,
    /// Do nothing: the outputs are stored and nobody needs the items.
    Skip,
}

/// Stage `p` feeds stage `i`.
pub open spec fn feeds(consumers: Seq<Vec<usize>>, p: int, i: int) -> bool {
    0 <= p < consumers.len() && 0 <= i <= usize::MAX && consumers[p]@.contains(i as usize)
}

/// Every consumer is a later stage.
pub open spec fn forward_edges(consumers: Seq<Vec<usize>>) -> bool {
    forall|p: int, i: int| #[trigger] feeds(consumers, p, i) ==> p < i < consumers.len()
}

/// The plan of stage `i` as its own consumers ask for it: an uncached stage runs; a cached one is
/// skipped unless a running consumer needs its items, which are then replayed if the operator
/// can, and produced again if it cannot.
pub open spec fn demanded(
    consumers: Seq<Vec<usize>>,
    cached: Seq<bool>,
    replayable: Seq<bool>,
    i: int,
) -> Plan
    decreases consumers.len() - i,
{
    if !(0 <= i < consumers.len()) || !cached[i] {
        Plan::Run
    } else if !exists|c: int|
        #![trigger feeds(consumers, i, c)]
        i < c < consumers.len() && feeds(consumers, i, c) && demanded(
            consumers,
            cached,
            replayable,
            c,
        ) == Plan::Run {
        Plan::Skip
    } else if replayable[i] {
        Plan::Replay
    } else {
        Plan::Run
    }
}

/// The final plan of stage `i`: a stage fed by a running stage sees new inputs and runs too;
/// any other does what its consumers ask for.
pub open spec fn settled(
    consumers: Seq<Vec<usize>>,
    cached: Seq<bool>,
    replayable: Seq<bool>,
    i: int,
) -> Plan
    decreases i,
{
    if exists|p: int|
        #![trigger feeds(consumers, p, i)]
        0 <= p < i && feeds(consumers, p, i) && settled(consumers, cached, replayable, p)
            == Plan::Run {
        Plan::Run
    } else {
        demanded(consumers, cached, replayable, i)
    }
}

fn lists(v: &Vec<usize>, x: usize) -> (b: bool)
    ensures
        b == v@.contains(x),
{
    let mut i: usize = 0;
    while i < v.len()
        invariant
            i <= v@.len(),
            forall|j: int| 0 <= j < i ==> v@[j] != x,
        decreases v@.len() - i,
    {
        if v[i] == x {
            return true;
        }
        i = i + 1;
    }
    false
}

/// Decides for every stage whether it runs, replays or is skipped. Stages are in topological
/// order: `consumers[i]` lists later stages only.
pub fn plan_stages(
    consumers: &Vec<Vec<usize>>,
    cached: &Vec<bool>,
    replayable: &Vec<bool>,
) -> (plan: Vec<Plan>)
    requires
        cached@.len() == consumers@.len(),
        replayable@.len() == consumers@.len(),
        forward_edges(consumers@),
    ensures
        plan@.len() == consumers@.len(),
        forall|i: int|
            0 <= i < plan@.len() ==> #[trigger] plan@[i] == settled(
                consumers@,
                cached@,
                replayable@,
                i,
            ),
{
    let n: usize = consumers.len();
    let mut plan: Vec<Plan> = Vec::new();
    let mut k: usize = 0;
    while k < n
        invariant
            k <= n,
            plan@.len() == k,
        decreases n - k,
    {
        plan.push(Plan::Run);
        k = k + 1;
    }
    // What consumers ask for, last stage first.
    let mut i: usize = n;
    while i > 0
        invariant
            i <= n == consumers@.len() == plan@.len(),
            cached@.len() == n,
            replayable@.len() == n,
            forward_edges(consumers@),
            forall|x: int|
                i <= x < n ==> #[trigger] plan@[x] == demanded(
                    consumers@,
                    cached@,
                    replayable@,
                    x,
                ),
        decreases i,
    {
        i = i - 1;
        if !cached[i] {
            plan.set(i, Plan::Run);
        } else {
            let mut needed: bool = false;
            let mut k: usize = 0;
            while k < consumers[i].len()
                invariant
                    i < n == consumers@.len() == plan@.len(),
                    k <= consumers@[i as int]@.len(),
                    forward_edges(consumers@),
                    forall|x: int|
                        i < x < n ==> #[trigger] plan@[x] == demanded(
                            consumers@,
                            cached@,
                            replayable@,
                            x,
                        ),
                    needed ==> exists|c: int|
                        #![trigger feeds(consumers@, i as int, c)]
                        i < c < n && feeds(consumers@, i as int, c) && demanded(
                            consumers@,
                            cached@,
                            replayable@,
                            c,
                        ) == Plan::Run,
                    !needed ==> forall|y: int|
                        0 <= y < k ==> plan@[#[trigger] consumers@[i as int]@[y] as int]
                            != Plan::Run,
                decreases consumers@[i as int]@.len() - k,
            {
                let c: usize = consumers[i][k];
                proof {
                    assert(consumers@[i as int]@.contains(c));
                    assert(feeds(consumers@, i as int, c as int));
                }
                if plan[c] == Plan::Run {
                    needed = true;
                }
                k = k + 1;
            }
            proof {
                if !needed {
                    assert forall|c: int|
                        #![trigger feeds(consumers@, i as int, c)]
                        i < c < n && feeds(consumers@, i as int, c) implies demanded(
                        consumers@,
                        cached@,
                        replayable@,
                        c,
                    ) != Plan::Run by {
                        let y = choose|y: int|
                            0 <= y < consumers@[i as int]@.len() && consumers@[i as int]@[y]
                                == c as usize;
                        assert(plan@[consumers@[i as int]@[y] as int] != Plan::Run);
                    }
                }
            }
            if !needed {
                plan.set(i, Plan::Skip);
            } else if replayable[i] {
                plan.set(i, Plan::Replay);
            } else {
                plan.set(i, Plan::Run);
            }
        }
    }
    // A stage whose producer runs sees new inputs; one forward pass settles it.
    let mut i: usize = 0;
    while i < n
        invariant
            i <= n == consumers@.len() == plan@.len(),
            forward_edges(consumers@),
            forall|x: int|
                0 <= x < i ==> #[trigger] plan@[x] == settled(
                    consumers@,
                    cached@,
                    replayable@,
                    x,
                ),
            forall|x: int|
                i <= x < n ==> #[trigger] plan@[x] == demanded(
                    consumers@,
                    cached@,
                    replayable@,
                    x,
                ),
        decreases n - i,
    {
        let mut p: usize = 0;
        let mut fed: bool = false;
        while p < i
            invariant
                p <= i < n == consumers@.len() == plan@.len(),
                forall|x: int|
                    0 <= x < i ==> #[trigger] plan@[x] == settled(
                        consumers@,
                        cached@,
                        replayable@,
                        x,
                    ),
                fed ==> exists|x: int|
                    #![trigger feeds(consumers@, x, i as int)]
                    0 <= x < i && feeds(consumers@, x, i as int) && settled(
                        consumers@,
                        cached@,
                        replayable@,
                        x,
                    ) == Plan::Run,
                !fed ==> forall|x: int|
                    #![trigger feeds(consumers@, x, i as int)]
                    0 <= x < p && feeds(consumers@, x, i as int) ==> plan@[x] != Plan::Run,
            decreases i - p,
        {
            if lists(&consumers[p], i) && plan[p] == Plan::Run {
                proof {
                    assert(feeds(consumers@, p as int, i as int));
                }
                fed = true;
            }
            p = p + 1;
        }
        if fed {
            plan.set(i, Plan::Run);
        }
        i = i + 1;
    }
    plan
}

/// Whether every stage is skipped, so that the job has nothing to do.
pub fn all_skipped(plan: &Vec<Plan>) -> (b: bool)
    ensures
        b == (forall|i: int| 0 <= i < plan@.len() ==> #[trigger] plan@[i] == Plan::Skip),
{
    let mut i: usize = 0;
    while i < plan.len()
        invariant
            i <= plan@.len(),
            forall|x: int| 0 <= x < i ==> #[trigger] plan@[x] == Plan::Skip,
        decreases plan@.len() - i,
    {
        if plan[i] != Plan::Skip {
            return false;
        }
        i = i + 1;
    }
    true
}

/// Only a cached stage is skipped or replayed, only a replayable one is replayed, and neither
/// happens to a stage that a running stage feeds.
pub proof fn law_idle_stages_are_cached(
    consumers: Seq<Vec<usize>>,
    cached: Seq<bool>,
    replayable: Seq<bool>,
    i: int,
)
    requires
        0 <= i < consumers.len(),
        forward_edges(consumers),
        settled(consumers, cached, replayable, i) != Plan::Run,
    ensures
        cached[i],
        settled(consumers, cached, replayable, i) == Plan::Replay ==> replayable[i],
        forall|p: int|
            #![trigger feeds(consumers, p, i)]
            feeds(consumers, p, i) ==> settled(consumers, cached, replayable, p) != Plan::Run,
{
}

/// A job whose every stage is cached has nothing to do.
pub proof fn law_fully_cached_skips_all(
    consumers: Seq<Vec<usize>>,
    cached: Seq<bool>,
    replayable: Seq<bool>,
    i: int,
)
    requires
        0 <= i < consumers.len(),
        cached.len() == consumers.len(),
        forall|x: int| 0 <= x < cached.len() ==> #[trigger] cached[x],
    ensures
        settled(consumers, cached, replayable, i) == Plan::Skip,
    decreases i,
{
    lemma_fully_cached_demands_nothing(consumers, cached, replayable, i);
    assert forall|p: int|
        #![trigger feeds(consumers, p, i)]
        0 <= p < i && feeds(consumers, p, i) implies settled(consumers, cached, replayable, p)
        != Plan::Run by {
        law_fully_cached_skips_all(consumers, cached, replayable, p);
    }
}

proof fn lemma_fully_cached_demands_nothing(
    consumers: Seq<Vec<usize>>,
    cached: Seq<bool>,
    replayable: Seq<bool>,
    i: int,
)
    requires
        0 <= i < consumers.len(),
        cached.len() == consumers.len(),
        forall|x: int| 0 <= x < cached.len() ==> #[trigger] cached[x],
    ensures
        demanded(consumers, cached, replayable, i) == Plan::Skip,
    decreases consumers.len() - i,
{
    assert(cached[i]);
    assert forall|c: int|
        #![trigger feeds(consumers, i, c)]
        i < c < consumers.len() && feeds(consumers, i, c) implies demanded(
        consumers,
        cached,
        replayable,
        c,
    ) != Plan::Run by {
        lemma_fully_cached_demands_nothing(consumers, cached, replayable, c);
    }
}

/// A stage that is not cached runs, and so does everything it feeds, directly or not: running
/// spreads along every edge.
pub proof fn law_running_spreads(
    consumers: Seq<Vec<usize>>,
    cached: Seq<bool>,
    replayable: Seq<bool>,
    p: int,
    i: int,
)
    requires
        forward_edges(consumers),
        0 <= p < consumers.len(),
    ensures
        !cached[p] ==> settled(consumers, cached, replayable, p) == Plan::Run,
        feeds(consumers, p, i) && settled(consumers, cached, replayable, p) == Plan::Run
            ==> settled(consumers, cached, replayable, i) == Plan::Run,
{
}

/// A stage that runs because its output is missing, or because a running stage asks for it, gets
/// its items: every stage that feeds it runs or replays. (One that runs only because a stage
/// before it runs may also have a skipped stage before it.)
pub proof fn law_demanded_stages_are_fed(
    consumers: Seq<Vec<usize>>,
    cached: Seq<bool>,
    replayable: Seq<bool>,
    p: int,
    i: int,
)
    requires
        forward_edges(consumers),
        0 <= p < consumers.len(),
        feeds(consumers, p, i),
        demanded(consumers, cached, replayable, i) == Plan::Run,
    ensures
        settled(consumers, cached, replayable, p) != Plan::Skip,
{
}

/// How many items a stage's input channel holds: half the frames in flight, kept between 2
/// and 16.
pub fn channel_capacity(max_in_flight_frames: usize) -> (c: usize)
    ensures
        2 <= c <= 16,
        c == (if max_in_flight_frames / 2 < 2 {
            2
        } else if max_in_flight_frames / 2 > 16 {
            16
        } else {
            (max_in_flight_frames / 2) as int
        }),
{
    let half: usize = max_in_flight_frames / 2;
    if half < 2 {
        2
    } else if half > 16 {
        16
    } else {
        half
    }
}

/// How a stage ended.
#[derive(Clone, Copy, Debug, PartialEq, Eq, Structural)]
pub enum StageStatus {
    /// It completed.
    Complete,
    /// It failed.
    Failed,
    /// It was not needed.
    Skipped,
}

/// What the scheduler concludes from a stage's counters.
#[derive(Clone, Copy, Debug, PartialEq, Eq, Structural)]
pub struct StageVerdict {
    /// The status to record.
    pub status: StageStatus,
    /// The whole job can still succeed.
    pub ok: bool,
    /// Some inputs failed although the stage completed.
    pub partial: bool,
    /// The outputs are complete and may be marked as cached.
    pub cache: bool,
}

/// Judges a stage that ran to its end: it failed when inputs failed and nothing was emitted or
/// stored; it is cached only when no input failed or was skipped.
pub fn judge_stage(items: u64, stored: u64, items_failed: u64, items_skipped: u64) -> (v:
    StageVerdict)
    ensures
        v.status == (if items_failed > 0 && items == 0 && stored == 0 {
            StageStatus::Failed
        } else {
            StageStatus::Complete
        }),
        v.ok == (v.status == StageStatus::Complete),
        v.partial == (v.ok && items_failed > 0),
        v.cache == (v.ok && items_failed == 0 && items_skipped == 0),
{
    if items_failed > 0 && items == 0 && stored == 0 {
        StageVerdict { status: StageStatus::Failed, ok: false, partial: false, cache: false }
    } else {
        StageVerdict {
            status: StageStatus::Complete,
            ok: true,
            partial: items_failed > 0,
            cache: items_failed == 0 && items_skipped == 0,
        }
    }
}

/// How far a video has been indexed.
#[derive(Clone, Copy, Debug, PartialEq, Eq, Structural)]
pub enum IndexState {
    /// Acquired and probed only.
    Acquired,
    /// The coarse operators are done.
    Coarse,
    /// The fine operators are done too.
    Fine,
    /// A job failed.
    Failed,
}

/// The index state a finished job leaves: failed unless every stage succeeded, and fine only
/// when the policy has fine operators.
pub fn job_index_state(ok: bool, has_fine: bool) -> (s: IndexState)
    ensures
        s == (if !ok {
            IndexState::Failed
        } else if has_fine {
            IndexState::Fine
        } else {
            IndexState::Coarse
        }),
{
    if !ok {
        IndexState::Failed
    } else if has_fine {
        IndexState::Fine
    } else {
        IndexState::Coarse
    }
}

/// What a job that had nothing to do reports, and whether the stored state is raised to coarse:
/// a fine index stays fine, and a video that was never indexed or had failed becomes coarse.
pub fn skipped_index_state(current: IndexState) -> (r: (IndexState, bool))
    ensures
        r.0 == (if current == IndexState::Fine {
            IndexState::Fine
        } else {
            IndexState::Coarse
        }),
        r.1 == (current == IndexState::Acquired || current == IndexState::Failed),
{
    let report = if current == IndexState::Fine {
        IndexState::Fine
    } else {
        IndexState::Coarse
    };
    (report, current == IndexState::Acquired || current == IndexState::Failed)
}

} // verus!
