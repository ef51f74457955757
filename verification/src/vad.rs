//! Voice activity: speech probabilities of short windows become segments,
//! merged across short pauses, padded, and none too long.
//!
//! Probabilities are in millionths. Times are in halves of a sample, 32000 to
//! the second.

use vstd::prelude::*;

use crate::perceive::PerceiveError;
use crate::text;
use crate::timestamp::Timestamp;

verus! {

/// Sample rate the model expects.
pub const SAMPLE_RATE: u32 = 16_000;

/// Samples per window (32 ms).
pub const WINDOW: usize = 512;

/// Half samples per window.
pub const WINDOW_UNITS: u64 = 1024;

/// Half samples per second.
pub const UNITS_PER_SEC: u32 = 32_000;

/// Settings of the segmenter.
#[derive(Clone, Copy, Debug, PartialEq, Eq, Structural)]
pub struct VadConfig {
    /// Probability at which speech starts.
    pub threshold: i64,
    /// Probability below which speech ends.
    pub neg_threshold: i64,
    /// Shorter speech is dropped, in milliseconds.
    pub min_speech_ms: u32,
    /// Shorter pauses do not end a segment, in milliseconds.
    pub min_silence_ms: u32,
    /// Padding on either side, in milliseconds.
    pub pad_ms: u32,
    /// Longest segment, in milliseconds.
    pub max_segment_ms: u32,
}

impl VadConfig {
    /// Whether runs of any length can be cut: the longest piece is three windows at least.
    pub fn cuts_any(&self) -> (b: bool)
        ensures
            b == (most_windows(*self) >= 3),
    {
        let least: u64 = (2 * (self.min_speech_ms as u64) + 32) / 64;
        self.max_segment_ms / 32 >= 3 || 2 * least >= 3
    }
}

/// A run of speech, in half samples from the start of the audio.
#[derive(Clone, Copy, Debug, PartialEq, Eq, Structural)]
pub struct SpeechSegment {
    /// Start.
    pub t0: u64,
    /// End.
    pub t1: u64,
}

impl SpeechSegment {
    /// Length in half samples.
    pub fn duration(&self) -> (d: u64)
        requires
            self.t0 <= self.t1,
        ensures
            d == self.t1 - self.t0,
    {
        self.t1 - self.t0
    }
}

/// A run of windows, the end not included.
pub type Run = (int, int);

/// Where the segmenter stands after some windows: the runs that ended, and the start of the one
/// that goes on, if any.
pub open spec fn scanned(probs: Seq<i64>, cfg: VadConfig, n: int) -> (Seq<Run>, Option<int>)
    decreases n,
{
    if n <= 0 {
        (Seq::empty(), None)
    } else {
        let (runs, open) = scanned(probs, cfg, n - 1);
        let p = probs[n - 1];
        match open {
            None => if p >= cfg.threshold {
                (runs, Some(n - 1))
            } else {
                (runs, None)
            },
            Some(s) => if p < cfg.neg_threshold {
                (runs.push((s, n - 1)), None)
            } else {
                (runs, Some(s))
            },
        }
    }
}

/// Runs of speech: speech starts where the probability reaches the threshold and ends where it
/// falls below the lower one.
pub open spec fn raw_runs(probs: Seq<i64>, cfg: VadConfig) -> Seq<Run> {
    let (runs, open) = scanned(probs, cfg, probs.len() as int);
    match open {
        Some(s) => runs.push((s, probs.len() as int)),
        None => runs,
    }
}

/// A time in milliseconds as windows, rounded to the nearest.
pub open spec fn windows_in(ms: int) -> int {
    (2 * ms + 32) / 64
}

/// Runs with those merged that are separated by less than `gap` windows.
pub open spec fn merged(runs: Seq<Run>, gap: int) -> Seq<Run>
    decreases runs.len(),
{
    if runs.len() == 0 {
        runs
    } else {
        let rest = merged(runs.drop_last(), gap);
        let r = runs.last();
        if rest.len() > 0 && (if r.0 < rest.last().1 {
            0
        } else {
            r.0 - rest.last().1
        }) < gap {
            rest.drop_last().push((rest.last().0, r.1))
        } else {
            rest.push(r)
        }
    }
}

/// Runs of at least `least` windows.
pub open spec fn long_runs(runs: Seq<Run>, least: int) -> Seq<Run>
    decreases runs.len(),
{
    if runs.len() == 0 {
        runs
    } else if runs.last().1 - runs.last().0 >= least {
        long_runs(runs.drop_last(), least).push(runs.last())
    } else {
        long_runs(runs.drop_last(), least)
    }
}

/// The larger of two numbers.
pub open spec fn larger(a: int, b: int) -> int {
    if a < b {
        b
    } else {
        a
    }
}

/// The smaller of two numbers.
pub open spec fn smaller(a: int, b: int) -> int {
    if a < b {
        a
    } else {
        b
    }
}

/// The quietest window from `lo` up to, but not with, `hi`: the first of them.
pub open spec fn quietest(probs: Seq<i64>, lo: int, hi: int) -> Option<int>
    decreases hi - lo,
{
    if hi <= lo {
        None
    } else {
        match quietest(probs, lo, hi - 1) {
            Some(b) => if probs[hi - 1] < probs[b] {
                Some(hi - 1)
            } else {
                Some(b)
            },
            None => Some(hi - 1),
        }
    }
}

/// Where a run that is too long is cut: at the quietest window between a third of the longest
/// piece and its end.
pub open spec fn cut_at(probs: Seq<i64>, s: int, e: int, most: int) -> int {
    let lo = s + smaller(e - s, most) / 3;
    let hi = smaller(s + most, e - 1);
    match quietest(probs, lo, hi) {
        Some(c) => c,
        None => hi,
    }
}

/// A cut leaves something on both sides, and a piece that is not too long.
pub proof fn lemma_cut(probs: Seq<i64>, s: int, e: int, most: int)
    requires
        e - s > most,
        most >= 3,
    ensures
        s < cut_at(probs, s, e, most) < e,
        cut_at(probs, s, e, most) - s <= most,
{
    let lo = s + smaller(e - s, most) / 3;
    let hi = smaller(s + most, e - 1);
    lemma_quietest(probs, lo, hi);
}

proof fn lemma_quietest(probs: Seq<i64>, lo: int, hi: int)
    ensures
        match quietest(probs, lo, hi) {
            Some(c) => lo <= c < hi,
            None => hi <= lo,
        },
    decreases hi - lo,
{
    if hi > lo {
        lemma_quietest(probs, lo, hi - 1);
    }
}

/// The pieces of a run.
pub open spec fn pieces(probs: Seq<i64>, s: int, e: int, most: int) -> Seq<Run>
    decreases e - s,
{
    if e - s <= most || most < 3 {
        seq![(s, e)]
    } else {
        proof {
            lemma_cut(probs, s, e, most);
        }
        let c = cut_at(probs, s, e, most);
        seq![(s, c)] + pieces(probs, c, e, most)
    }
}

/// The pieces of runs.
pub open spec fn all_pieces(probs: Seq<i64>, runs: Seq<Run>, most: int) -> Seq<Run>
    decreases runs.len(),
{
    if runs.len() == 0 {
        Seq::empty()
    } else {
        all_pieces(probs, runs.drop_last(), most) + pieces(
            probs,
            runs.last().0,
            runs.last().1,
            most,
        )
    }
}

/// The shortest run that is kept, in windows.
pub open spec fn least_windows(cfg: VadConfig) -> int {
    larger(windows_in(cfg.min_speech_ms as int), 1)
}

/// The longest piece, in windows.
pub open spec fn most_windows(cfg: VadConfig) -> int {
    larger(cfg.max_segment_ms as int / 32, 2 * least_windows(cfg))
}

/// The runs of speech before those that are too long are cut.
pub open spec fn whole_runs(probs: Seq<i64>, cfg: VadConfig) -> Seq<Run> {
    long_runs(
        merged(raw_runs(probs, cfg), windows_in(cfg.min_silence_ms as int)),
        least_windows(cfg),
    )
}

/// Runs can be cut into pieces: a third of the longest piece is a window at least, or nothing has
/// to be cut.
pub open spec fn can_cut(runs: Seq<Run>, most: int) -> bool {
    most >= 3 || forall|i: int|
        0 <= i < runs.len() ==> (#[trigger] runs[i]).1 - runs[i].0 <= most
}

/// The runs of speech that become segments.
pub open spec fn speech_runs(probs: Seq<i64>, cfg: VadConfig) -> Seq<Run> {
    all_pieces(probs, whole_runs(probs, cfg), most_windows(cfg))
}

/// The padded start of a run.
pub open spec fn padded_start(r: Run, cfg: VadConfig) -> int {
    larger(r.0 * 1024 - cfg.pad_ms * 32, 0)
}

/// The padded end of a run in audio of `n` windows.
pub open spec fn padded_end(r: Run, cfg: VadConfig, n: int) -> int {
    smaller(r.1 * 1024 + cfg.pad_ms * 32, n * 1024)
}

/// Where segment `i` starts: half way to the one before where padding makes them overlap.
pub open spec fn start_of(runs: Seq<Run>, cfg: VadConfig, n: int, i: int) -> int {
    let t0 = padded_start(runs[i], cfg);
    if i > 0 && t0 < padded_end(runs[i - 1], cfg, n) {
        (t0 + padded_end(runs[i - 1], cfg, n)) / 2
    } else {
        t0
    }
}

/// Where segment `i` ends.
pub open spec fn end_of(runs: Seq<Run>, cfg: VadConfig, n: int, i: int) -> int {
    let t1 = padded_end(runs[i], cfg, n);
    if i + 1 < runs.len() && padded_start(runs[i + 1], cfg) < t1 {
        (padded_start(runs[i + 1], cfg) + t1) / 2
    } else {
        t1
    }
}

/// The segments of the first `k` runs; those without length are left out.
pub open spec fn segments_of(runs: Seq<Run>, cfg: VadConfig, n: int, k: int) -> Seq<(int, int)>
    decreases k,
{
    if k <= 0 {
        Seq::empty()
    } else {
        let rest = segments_of(runs, cfg, n, k - 1);
        let (a, b) = (start_of(runs, cfg, n, k - 1), end_of(runs, cfg, n, k - 1));
        if b > a {
            rest.push((a, b))
        } else {
            rest
        }
    }
}

/// The segments of speech in windows with the given probabilities.
pub open spec fn speech(probs: Seq<i64>, cfg: VadConfig) -> Seq<(int, int)> {
    let runs = speech_runs(probs, cfg);
    segments_of(runs, cfg, probs.len() as int, runs.len() as int)
}

/// Segments as mathematics.
pub open spec fn segment_views(s: Seq<SpeechSegment>) -> Seq<(int, int)> {
    s.map_values(|g: SpeechSegment| (g.t0 as int, g.t1 as int))
}

/// Runs as mathematics.
pub open spec fn run_views(s: Seq<(usize, usize)>) -> Seq<Run> {
    s.map_values(|r: (usize, usize)| (r.0 as int, r.1 as int))
}

/// Runs lie in `n` windows, each with a window, one behind the other.
pub open spec fn tidy(runs: Seq<Run>, n: int) -> bool {
    &&& forall|i: int|
        0 <= i < runs.len() ==> 0 <= (#[trigger] runs[i]).0 && runs[i].0 < runs[i].1 && runs[i].1
            <= n
    &&& forall|i: int, j: int|
        0 <= i < j < runs.len() ==> (#[trigger] runs[i]).1 <= (#[trigger] runs[j]).0
}

proof fn lemma_scanned_tidy(probs: Seq<i64>, cfg: VadConfig, n: int)
    requires
        0 <= n <= probs.len(),
    ensures
        ({
            let (runs, open) = scanned(probs, cfg, n);
            &&& tidy(runs, n)
            &&& open matches Some(s) ==> 0 <= s < n && forall|i: int|
                0 <= i < runs.len() ==> (#[trigger] runs[i]).1 <= s
        }),
    decreases n,
{
    if n > 0 {
        lemma_scanned_tidy(probs, cfg, n - 1);
    }
}

fn find_runs(probs: &Vec<i64>, cfg: VadConfig) -> (r: Vec<(usize, usize)>)
    ensures
        run_views(r@) == raw_runs(probs@, cfg),
        tidy(raw_runs(probs@, cfg), probs@.len() as int),
{
    let n: usize = probs.len();
    let mut out: Vec<(usize, usize)> = Vec::new();
    let mut open: Option<usize> = None;
    let mut i: usize = 0;
    proof {
        assert(run_views(out@) =~= Seq::<Run>::empty());
    }
    while i < n
        invariant
            i <= n == probs@.len(),
            (run_views(out@), match open {
                Some(s) => Some(s as int),
                None => None,
            }) == scanned(probs@, cfg, i as int),
        decreases n - i,
    {
        let p: i64 = probs[i];
        match open {
            None => {
                if p >= cfg.threshold {
                    open = Some(i);
                }
            },
            Some(s) => {
                if p < cfg.neg_threshold {
                    let ghost before = run_views(out@);
                    out.push((s, i));
                    proof {
                        assert(run_views(out@) =~= before.push((s as int, i as int)));
                    }
                    open = None;
                }
            },
        }
        i = i + 1;
    }
    proof {
        lemma_scanned_tidy(probs@, cfg, n as int);
    }
    match open {
        Some(s) => {
            let ghost before = run_views(out@);
            out.push((s, n));
            proof {
                assert(run_views(out@) =~= before.push((s as int, n as int)));
            }
        },
        None => {},
    }
    out
}

proof fn lemma_merged_tidy(runs: Seq<Run>, gap: int, n: int)
    requires
        tidy(runs, n),
    ensures
        tidy(merged(runs, gap), n),
        runs.len() > 0 ==> merged(runs, gap).len() > 0 && merged(runs, gap).last().1
            == runs.last().1,
    decreases runs.len(),
{
    if runs.len() > 0 {
        let head = runs.drop_last();
        assert forall|i: int, j: int| 0 <= i < j < head.len() implies (#[trigger] head[i]).1 <= (
        #[trigger] head[j]).0 by {
            assert(runs[i].1 <= runs[j].0);
        }
        assert forall|i: int| 0 <= i < head.len() implies 0 <= (#[trigger] head[i]).0 && head[i].0
            < head[i].1 && head[i].1 <= n by {
            assert(runs[i].0 < runs[i].1);
        }
        lemma_merged_tidy(head, gap, n);
        let rest = merged(head, gap);
        let r = runs.last();
        assert(runs[runs.len() - 1] == r);
        if head.len() > 0 {
            assert(runs[head.len() - 1].1 <= runs[runs.len() - 1].0);
            assert(rest.last().1 == head.last().1);
        }
        let m = merged(runs, gap);
        assert forall|i: int, j: int| 0 <= i < j < m.len() implies (#[trigger] m[i]).1 <= (
        #[trigger] m[j]).0 by {
            if j < m.len() - 1 {
                assert(m[i] == rest[i] && m[j] == rest[j]);
            } else {
                assert(m[i] == rest[i]);
                if m.len() == rest.len() {
                    assert(rest[i].1 <= rest[rest.len() - 1].0);
                } else {
                    if i < rest.len() - 1 {
                        assert(rest[i].1 <= rest[rest.len() - 1].0);
                        assert(rest[rest.len() - 1].0 < rest[rest.len() - 1].1);
                    }
                    assert(rest[i].1 <= rest.last().1);
                }
            }
        }
        assert forall|i: int| 0 <= i < m.len() implies 0 <= (#[trigger] m[i]).0 && m[i].0 < m[i].1
            && m[i].1 <= n by {
            if i < m.len() - 1 {
                assert(m[i] == rest[i]);
            } else if m.len() == rest.len() {
                assert(rest[i].0 < rest[i].1);
            }
        }
    }
}

fn merge_runs(runs: &Vec<(usize, usize)>, gap: usize, Ghost(n): Ghost<int>) -> (r: Vec<
    (usize, usize),
>)
    requires
        tidy(run_views(runs@), n),
    ensures
        run_views(r@) == merged(run_views(runs@), gap as int),
        tidy(run_views(r@), n),
{
    let ghost all = run_views(runs@);
    let mut out: Vec<(usize, usize)> = Vec::new();
    let mut i: usize = 0;
    proof {
        assert(all.take(0) =~= Seq::<Run>::empty());
        assert(run_views(out@) =~= Seq::<Run>::empty());
        lemma_merged_tidy(all, gap as int, n);
    }
    while i < runs.len()
        invariant
            i <= runs@.len(),
            all == run_views(runs@),
            run_views(out@) == merged(all.take(i as int), gap as int),
        decreases runs@.len() - i,
    {
        let (s, e) = runs[i];
        let ghost before = run_views(out@);
        let ghost plain = out@;
        proof {
            assert(all.take(i + 1).drop_last() =~= all.take(i as int));
            assert(all.take(i + 1).last() == (s as int, e as int));
        }
        let m: usize = out.len();
        let mut joined: bool = false;
        if m > 0 {
            let (a, b) = out[m - 1];
            proof {
                assert(before.last() == (a as int, b as int));
            }
            let between: usize = if s < b {
                0
            } else {
                s - b
            };
            if between < gap {
                out.set(m - 1, (a, e));
                joined = true;
                proof {
                    assert(run_views(out@) =~= before.drop_last().push((a as int, e as int)));
                }
            }
        }
        if !joined {
            out.push((s, e));
            proof {
                assert(run_views(out@) =~= before.push((s as int, e as int)));
            }
        }
        i = i + 1;
    }
    proof {
        assert(all.take(i as int) =~= all);
    }
    out
}

proof fn lemma_long_tidy(runs: Seq<Run>, least: int, n: int)
    requires
        tidy(runs, n),
    ensures
        tidy(long_runs(runs, least), n),
        forall|i: int|
            0 <= i < long_runs(runs, least).len() ==> runs.contains(
                #[trigger] long_runs(runs, least)[i],
            ),
    decreases runs.len(),
{
    if runs.len() > 0 {
        let head = runs.drop_last();
        assert forall|i: int, j: int| 0 <= i < j < head.len() implies (#[trigger] head[i]).1 <= (
        #[trigger] head[j]).0 by {
            assert(runs[i].1 <= runs[j].0);
        }
        assert forall|i: int| 0 <= i < head.len() implies 0 <= (#[trigger] head[i]).0 && head[i].0
            < head[i].1 && head[i].1 <= n by {
            assert(runs[i].0 < runs[i].1);
        }
        lemma_long_tidy(head, least, n);
        let rest = long_runs(head, least);
        let l = long_runs(runs, least);
        assert(runs[runs.len() - 1].0 < runs[runs.len() - 1].1);
        assert forall|i: int| 0 <= i < l.len() implies runs.contains(#[trigger] l[i]) by {
            if i < rest.len() {
                let k = choose|k: int| 0 <= k < head.len() && head[k] == rest[i];
                assert(runs[k] == l[i]);
            } else {
                assert(runs[runs.len() - 1] == l[i]);
            }
        }
        assert forall|i: int, j: int| 0 <= i < j < l.len() implies (#[trigger] l[i]).1 <= (
        #[trigger] l[j]).0 by {
            if j < rest.len() {
                assert(l[i] == rest[i] && l[j] == rest[j]);
            } else {
                assert(l[i] == rest[i]);
                let k = choose|k: int| 0 <= k < head.len() && head[k] == rest[i];
                assert(runs[k].1 <= runs[runs.len() - 1].0);
            }
        }
    }
}

fn keep_long(runs: &Vec<(usize, usize)>, least: usize, Ghost(n): Ghost<int>) -> (r: Vec<
    (usize, usize),
>)
    requires
        tidy(run_views(runs@), n),
    ensures
        run_views(r@) == long_runs(run_views(runs@), least as int),
        tidy(run_views(r@), n),
{
    let ghost all = run_views(runs@);
    let mut out: Vec<(usize, usize)> = Vec::new();
    let mut i: usize = 0;
    proof {
        assert(all.take(0) =~= Seq::<Run>::empty());
        assert(run_views(out@) =~= Seq::<Run>::empty());
        lemma_long_tidy(all, least as int, n);
    }
    while i < runs.len()
        invariant
            i <= runs@.len(),
            all == run_views(runs@),
            tidy(all, n),
            run_views(out@) == long_runs(all.take(i as int), least as int),
        decreases runs@.len() - i,
    {
        let (s, e) = runs[i];
        proof {
            assert(all.take(i + 1).drop_last() =~= all.take(i as int));
            assert(all[i as int] == (s as int, e as int));
        }
        if e - s >= least {
            let ghost before = run_views(out@);
            out.push((s, e));
            proof {
                assert(run_views(out@) =~= before.push((s as int, e as int)));
            }
        }
        i = i + 1;
    }
    proof {
        assert(all.take(i as int) =~= all);
    }
    out
}

fn find_cut(probs: &Vec<i64>, s: usize, e: usize, most: usize) -> (c: usize)
    requires
        s <= e <= probs@.len(),
        e - s > most >= 3,
    ensures
        c == cut_at(probs@, s as int, e as int, most as int),
        s < c < e,
{
    let lo: usize = s + most / 3;
    let hi: usize = if most < e - 1 - s {
        s + most
    } else {
        e - 1
    };
    proof {
        lemma_cut(probs@, s as int, e as int, most as int);
        lemma_quietest(probs@, lo as int, hi as int);
    }
    let mut best: Option<usize> = None;
    let mut k: usize = lo;
    while k < hi
        invariant
            lo <= k <= hi <= probs@.len(),
            match best {
                Some(b) => lo <= b < k && quietest(probs@, lo as int, k as int) == Some(b as int),
                None => quietest(probs@, lo as int, k as int) is None && k == lo,
            },
        decreases hi - k,
    {
        match best {
            Some(b) => {
                if probs[k] < probs[b] {
                    best = Some(k);
                }
            },
            None => {
                best = Some(k);
            },
        }
        k = k + 1;
    }
    match best {
        Some(b) => b,
        None => hi,
    }
}

fn cut_runs(probs: &Vec<i64>, runs: &Vec<(usize, usize)>, most: usize) -> (r: Vec<(usize, usize)>)
    requires
        tidy(run_views(runs@), probs@.len() as int),
        can_cut(run_views(runs@), most as int),
    ensures
        run_views(r@) == all_pieces(probs@, run_views(runs@), most as int),
{
    let ghost all = run_views(runs@);
    let mut out: Vec<(usize, usize)> = Vec::new();
    let mut i: usize = 0;
    proof {
        assert(all.take(0) =~= Seq::<Run>::empty());
        assert(run_views(out@) =~= Seq::<Run>::empty());
    }
    while i < runs.len()
        invariant
            i <= runs@.len(),
            all == run_views(runs@),
            can_cut(all, most as int),
            tidy(all, probs@.len() as int),
            run_views(out@) == all_pieces(probs@, all.take(i as int), most as int),
        decreases runs@.len() - i,
    {
        let (first, e) = runs[i];
        let ghost before = run_views(out@);
        proof {
            assert(all.take(i + 1).drop_last() =~= all.take(i as int));
            assert(all[i as int] == (first as int, e as int));
            assert(all.take(i + 1).last() == (first as int, e as int));
        }
        let mut s: usize = first;
        while e - s > most
            invariant
                most >= 3 || e - s <= most,
                first <= s < e <= probs@.len(),
                run_views(out@) + pieces(probs@, s as int, e as int, most as int) == before
                    + pieces(probs@, first as int, e as int, most as int),
            decreases e - s,
        {
            let c: usize = find_cut(probs, s, e, most);
            let ghost had = run_views(out@);
            out.push((s, c));
            proof {
                let rest = pieces(probs@, c as int, e as int, most as int);
                assert(run_views(out@) =~= had.push((s as int, c as int)));
                assert(had.push((s as int, c as int)) + rest =~= had + (seq![(s as int, c as int)]
                    + rest));
            }
            s = c;
        }
        let ghost had = run_views(out@);
        out.push((s, e));
        proof {
            assert(run_views(out@) =~= had + seq![(s as int, e as int)]);
        }
        i = i + 1;
    }
    proof {
        assert(all.take(i as int) =~= all);
    }
    out
}

/// Runs lie in `n` windows.
pub open spec fn inside(runs: Seq<Run>, n: int) -> bool {
    forall|i: int| 0 <= i < runs.len() ==> 0 <= (#[trigger] runs[i]).0 <= runs[i].1 <= n
}

proof fn lemma_pieces_inside(probs: Seq<i64>, s: int, e: int, most: int, n: int)
    requires
        0 <= s <= e <= n,
        most >= 3 || e - s <= most,
    ensures
        inside(pieces(probs, s, e, most), n),
        forall|i: int|
            0 <= i < pieces(probs, s, e, most).len() ==> (#[trigger] pieces(probs, s, e, most)[i]).1
                - pieces(probs, s, e, most)[i].0 <= most,
    decreases e - s,
{
    if e - s > most {
        lemma_cut(probs, s, e, most);
        let c = cut_at(probs, s, e, most);
        lemma_pieces_inside(probs, c, e, most, n);
        let rest = pieces(probs, c, e, most);
        let p = pieces(probs, s, e, most);
        assert forall|i: int| 0 <= i < p.len() implies 0 <= (#[trigger] p[i]).0 <= p[i].1 <= n
            && p[i].1 - p[i].0 <= most by {
            if i > 0 {
                assert(p[i] == rest[i - 1]);
            }
        }
    }
}

proof fn lemma_all_inside(probs: Seq<i64>, runs: Seq<Run>, most: int, n: int)
    requires
        inside(runs, n),
        can_cut(runs, most),
    ensures
        inside(all_pieces(probs, runs, most), n),
        forall|i: int|
            0 <= i < all_pieces(probs, runs, most).len() ==> (#[trigger] all_pieces(
                probs,
                runs,
                most,
            )[i]).1 - all_pieces(probs, runs, most)[i].0 <= most,
    decreases runs.len(),
{
    if runs.len() > 0 {
        let head = runs.drop_last();
        assert forall|i: int| 0 <= i < head.len() implies 0 <= (#[trigger] head[i]).0 <= head[i].1
            <= n by {
            assert(runs[i].0 <= runs[i].1);
        }
        if most < 3 {
            assert forall|i: int| 0 <= i < head.len() implies (#[trigger] head[i]).1 - head[i].0
                <= most by {
                assert(runs[i].1 - runs[i].0 <= most);
            }
        }
        lemma_all_inside(probs, head, most, n);
        let r = runs.last();
        assert(runs[runs.len() - 1].0 <= runs[runs.len() - 1].1);
        lemma_pieces_inside(probs, r.0, r.1, most, n);
        let a = all_pieces(probs, head, most);
        let b = pieces(probs, r.0, r.1, most);
        let p = all_pieces(probs, runs, most);
        assert forall|i: int| 0 <= i < p.len() implies 0 <= (#[trigger] p[i]).0 <= p[i].1 <= n
            && p[i].1 - p[i].0 <= most by {
            if i < a.len() {
                assert(p[i] == a[i]);
            } else {
                assert(p[i] == b[i - a.len()]);
            }
        }
    }
}

/// Turns per-window probabilities into segments. Window `i` covers the 32 milliseconds from
/// `32 * i` on.
pub fn segment(probs: &Vec<i64>, cfg: &VadConfig) -> (r: Vec<SpeechSegment>)
    requires
        probs@.len() < 0x10_0000_0000_0000,
        can_cut(whole_runs(probs@, *cfg), most_windows(*cfg)),
    ensures
        segment_views(r@) == speech(probs@, *cfg),
{
    let n: usize = probs.len();
    let runs = find_runs(probs, *cfg);
    let gap: usize = ((2 * (cfg.min_silence_ms as u64) + 32) / 64) as usize;
    let speech_w: u64 = (2 * (cfg.min_speech_ms as u64) + 32) / 64;
    let least: u64 = if speech_w < 1 {
        1
    } else {
        speech_w
    };
    let longest: u64 = cfg.max_segment_ms as u64 / 32;
    let most: u64 = if longest < 2 * least {
        2 * least
    } else {
        longest
    };
    let merged_runs = merge_runs(&runs, gap, Ghost(n as int));
    let kept = keep_long(&merged_runs, least as usize, Ghost(n as int));
    let cut = cut_runs(probs, &kept, most as usize);
    let ghost rs = speech_runs(probs@, *cfg);
    proof {
        assert(run_views(cut@) == rs);
        lemma_all_inside(probs@, run_views(kept@), most as int, n as int);
    }
    let pad: u64 = cfg.pad_ms as u64 * 32;
    let total: u64 = n as u64 * 1024;
    let m: usize = cut.len();
    let mut out: Vec<SpeechSegment> = Vec::new();
    let mut i: usize = 0;
    proof {
        assert(segment_views(out@) =~= Seq::<(int, int)>::empty());
    }
    while i < m
        invariant
            i <= m == cut@.len(),
            n == probs@.len(),
            n < 0x10_0000_0000_0000,
            total == n * 1024,
            pad == cfg.pad_ms * 32,
            rs == run_views(cut@),
            inside(rs, n as int),
            segment_views(out@) == segments_of(rs, *cfg, n as int, i as int),
        decreases m - i,
    {
        proof {
            assert(rs[i as int] == (cut@[i as int].0 as int, cut@[i as int].1 as int));
            if i > 0 {
                assert(rs[i - 1] == (cut@[i - 1].0 as int, cut@[i - 1].1 as int));
            }
            if i + 1 < m {
                assert(rs[i + 1] == (cut@[i + 1].0 as int, cut@[i + 1].1 as int));
            }
        }
        let (s, e) = cut[i];
        let a: u64 = pad_start(s, pad);
        let b: u64 = pad_end(e, pad, total);
        let mut t0: u64 = a;
        let mut t1: u64 = b;
        if i > 0 {
            let before: u64 = pad_end(cut[i - 1].1, pad, total);
            if a < before {
                t0 = (a + before) / 2;
            }
        }
        if m - i > 1 {
            let after: u64 = pad_start(cut[i + 1].0, pad);
            if after < b {
                t1 = (after + b) / 2;
            }
        }
        if t1 > t0 {
            let ghost had = segment_views(out@);
            out.push(SpeechSegment { t0, t1 });
            proof {
                assert(segment_views(out@) =~= had.push((t0 as int, t1 as int)));
            }
        }
        i = i + 1;
    }
    out
}

fn pad_start(s: usize, pad: u64) -> (t: u64)
    requires
        s < 0x10_0000_0000_0000,
        pad <= 0xffff_ffff * 32,
    ensures
        t == larger(s * 1024 - pad, 0),
{
    let x: u64 = s as u64 * 1024;
    if x < pad {
        0
    } else {
        x - pad
    }
}

fn pad_end(e: usize, pad: u64, total: u64) -> (t: u64)
    requires
        e < 0x10_0000_0000_0000,
        pad <= 0xffff_ffff * 32,
    ensures
        t == smaller(e * 1024 + pad, total as int),
{
    let x: u64 = e as u64 * 1024 + pad;
    if x < total {
        x
    } else {
        total
    }
}

proof fn lemma_segments_ordered(runs: Seq<Run>, cfg: VadConfig, n: int, k: int)
    requires
        inside(runs, n),
        0 <= k <= runs.len(),
        forall|i: int, j: int|
            0 <= i < j < runs.len() ==> (#[trigger] runs[i]).1 <= (#[trigger] runs[j]).0,
    ensures
        ({
            let g = segments_of(runs, cfg, n, k);
            &&& forall|i: int|
                0 <= i < g.len() ==> 0 <= (#[trigger] g[i]).0 && g[i].0 < g[i].1 && g[i].1 <= n
                    * 1024 && (k < runs.len() ==> g[i].1 <= start_of(runs, cfg, n, k))
            &&& forall|i: int, j: int|
                0 <= i < j < g.len() ==> (#[trigger] g[i]).1 <= (#[trigger] g[j]).0
        }),
    decreases k,
{
    if k > 0 {
        lemma_segments_ordered(runs, cfg, n, k - 1);
        let rest = segments_of(runs, cfg, n, k - 1);
        let g = segments_of(runs, cfg, n, k);
        let r = runs[k - 1];
        assert(0 <= r.0 <= r.1 <= n);
        if k < runs.len() {
            assert(runs[k - 1].1 <= runs[k].0);
            assert(0 <= runs[k].0 <= runs[k].1 <= n);
            assert(end_of(runs, cfg, n, k - 1) <= start_of(runs, cfg, n, k));
        }
        if k - 1 > 0 {
            assert(runs[k - 2].1 <= runs[k - 1].0);
            assert(0 <= runs[k - 2].0 <= runs[k - 2].1 <= n);
        }
        assert(start_of(runs, cfg, n, k - 1) >= 0);
        assert(end_of(runs, cfg, n, k - 1) <= n * 1024);
        assert forall|i: int| 0 <= i < g.len() implies 0 <= (#[trigger] g[i]).0 && g[i].0 < g[i].1
            && g[i].1 <= n * 1024 && (k < runs.len() ==> g[i].1 <= start_of(runs, cfg, n, k)) by {
            if i < rest.len() {
                assert(g[i] == rest[i]);
                if k < runs.len() {
                    lemma_starts_grow(runs, cfg, n, k - 1);
                }
            }
        }
        assert forall|i: int, j: int| 0 <= i < j < g.len() implies (#[trigger] g[i]).1 <= (
        #[trigger] g[j]).0 by {
            assert(g[i] == rest[i]);
            if j < rest.len() {
                assert(g[j] == rest[j]);
            }
        }
    }
}

proof fn lemma_starts_grow(runs: Seq<Run>, cfg: VadConfig, n: int, i: int)
    requires
        inside(runs, n),
        0 <= i < runs.len() - 1,
        forall|i: int, j: int|
            0 <= i < j < runs.len() ==> (#[trigger] runs[i]).1 <= (#[trigger] runs[j]).0,
    ensures
        start_of(runs, cfg, n, i) <= start_of(runs, cfg, n, i + 1),
{
    assert(0 <= runs[i].0 <= runs[i].1 <= n);
    assert(0 <= runs[i + 1].0 <= runs[i + 1].1 <= n);
    assert(runs[i].1 <= runs[i + 1].0);
    if i > 0 {
        assert(0 <= runs[i - 1].0 <= runs[i - 1].1 <= n);
        assert(runs[i - 1].1 <= runs[i].0);
    }
}

proof fn lemma_pieces_follow(probs: Seq<i64>, s: int, e: int, most: int)
    requires
        0 <= s < e,
    ensures
        tidy(pieces(probs, s, e, most), e),
        forall|i: int|
            0 <= i < pieces(probs, s, e, most).len() ==> (#[trigger] pieces(probs, s, e, most)[i]).0
                >= s,
    decreases e - s,
{
    if e - s > most && most >= 3 {
        lemma_cut(probs, s, e, most);
        let c = cut_at(probs, s, e, most);
        lemma_pieces_follow(probs, c, e, most);
        let rest = pieces(probs, c, e, most);
        let p = pieces(probs, s, e, most);
        assert forall|i: int| 0 <= i < p.len() implies (#[trigger] p[i]).0 >= s && p[i].0 < p[i].1
            && p[i].1 <= e by {
            if i > 0 {
                assert(p[i] == rest[i - 1]);
            }
        }
        assert forall|i: int, j: int| 0 <= i < j < p.len() implies (#[trigger] p[i]).1 <= (
        #[trigger] p[j]).0 by {
            assert(p[j] == rest[j - 1]);
            if i > 0 {
                assert(p[i] == rest[i - 1]);
            }
        }
    }
}

proof fn lemma_all_follow(probs: Seq<i64>, runs: Seq<Run>, most: int, n: int)
    requires
        tidy(runs, n),
    ensures
        tidy(all_pieces(probs, runs, most), n),
        runs.len() > 0 ==> forall|i: int|
            0 <= i < all_pieces(probs, runs, most).len() ==> (#[trigger] all_pieces(
                probs,
                runs,
                most,
            )[i]).1 <= runs.last().1,
    decreases runs.len(),
{
    if runs.len() > 0 {
        let head = runs.drop_last();
        assert forall|i: int, j: int| 0 <= i < j < head.len() implies (#[trigger] head[i]).1 <= (
        #[trigger] head[j]).0 by {
            assert(runs[i].1 <= runs[j].0);
        }
        assert forall|i: int| 0 <= i < head.len() implies 0 <= (#[trigger] head[i]).0 && head[i].0
            < head[i].1 && head[i].1 <= n by {
            assert(runs[i].0 < runs[i].1);
        }
        lemma_all_follow(probs, head, most, n);
        let r = runs.last();
        assert(runs[runs.len() - 1].0 < runs[runs.len() - 1].1);
        lemma_pieces_follow(probs, r.0, r.1, most);
        let a = all_pieces(probs, head, most);
        let b = pieces(probs, r.0, r.1, most);
        let p = all_pieces(probs, runs, most);
        if head.len() > 0 {
            assert(runs[head.len() - 1].1 <= runs[runs.len() - 1].0);
        }
        assert forall|i: int| 0 <= i < p.len() implies 0 <= (#[trigger] p[i]).0 && p[i].0 < p[i].1
            && p[i].1 <= n && p[i].1 <= r.1 by {
            if i < a.len() {
                assert(p[i] == a[i]);
            } else {
                assert(p[i] == b[i - a.len()]);
            }
        }
        assert forall|i: int, j: int| 0 <= i < j < p.len() implies (#[trigger] p[i]).1 <= (
        #[trigger] p[j]).0 by {
            if j < a.len() {
                assert(p[i] == a[i] && p[j] == a[j]);
            } else if i < a.len() {
                assert(p[i] == a[i] && p[j] == b[j - a.len()]);
                assert(a[i].1 <= head.last().1);
            } else {
                assert(p[i] == b[i - a.len()] && p[j] == b[j - a.len()]);
            }
        }
    }
}

proof fn lemma_speech_ordered(probs: Seq<i64>, cfg: VadConfig)
    ensures
        forall|i: int|
            0 <= i < speech(probs, cfg).len() ==> 0 <= (#[trigger] speech(probs, cfg)[i]).0
                && speech(probs, cfg)[i].0 < speech(probs, cfg)[i].1 && speech(probs, cfg)[i].1
                <= probs.len() * 1024,
        forall|i: int, j: int|
            0 <= i < j < speech(probs, cfg).len() ==> (#[trigger] speech(probs, cfg)[i]).1 <= (
            #[trigger] speech(probs, cfg)[j]).0,
{
    let n = probs.len() as int;
    lemma_scanned_tidy(probs, cfg, n);
    let raw = raw_runs(probs, cfg);
    assert(tidy(raw, n));
    let gap = windows_in(cfg.min_silence_ms as int);
    lemma_merged_tidy(raw, gap, n);
    lemma_long_tidy(merged(raw, gap), least_windows(cfg), n);
    let kept = whole_runs(probs, cfg);
    lemma_all_follow(probs, kept, most_windows(cfg), n);
    let runs = speech_runs(probs, cfg);
    lemma_segments_ordered(runs, cfg, n, runs.len() as int);
}

/// Each segment lies within the audio and is not empty.
pub proof fn law_segments_are_within(probs: Seq<i64>, cfg: VadConfig, i: int)
    requires
        0 <= i < speech(probs, cfg).len(),
    ensures
        0 <= speech(probs, cfg)[i].0 < speech(probs, cfg)[i].1 <= probs.len() * 1024,
{
    lemma_speech_ordered(probs, cfg);
}

/// Segments are in order and do not overlap.
pub proof fn law_segments_are_disjoint(probs: Seq<i64>, cfg: VadConfig, i: int, j: int)
    requires
        0 <= i < j < speech(probs, cfg).len(),
    ensures
        speech(probs, cfg)[i].1 <= speech(probs, cfg)[j].0,
{
    lemma_speech_ordered(probs, cfg);
}

/// No segment lasts longer than the longest piece and its padding.
pub proof fn law_segments_are_short(probs: Seq<i64>, cfg: VadConfig, i: int)
    requires
        can_cut(whole_runs(probs, cfg), most_windows(cfg)),
        0 <= i < speech(probs, cfg).len(),
    ensures
        speech(probs, cfg)[i].1 - speech(probs, cfg)[i].0 <= most_windows(cfg) * 1024 + 2
            * cfg.pad_ms * 32,
{
    let n = probs.len() as int;
    lemma_scanned_tidy(probs, cfg, n);
    let raw = raw_runs(probs, cfg);
    let gap = windows_in(cfg.min_silence_ms as int);
    lemma_merged_tidy(raw, gap, n);
    lemma_long_tidy(merged(raw, gap), least_windows(cfg), n);
    let kept = whole_runs(probs, cfg);
    lemma_all_inside(probs, kept, most_windows(cfg), n);
    let runs = speech_runs(probs, cfg);
    lemma_segments_short(runs, cfg, n, runs.len() as int, most_windows(cfg));
}

/// Window `i` is in speech: since a window that reached the threshold, none fell below the lower
/// one.
pub open spec fn in_speech(probs: Seq<i64>, cfg: VadConfig, i: int) -> bool {
    exists|s: int|
        0 <= s <= i && #[trigger] probs[s] >= cfg.threshold && forall|j: int|
            s < j <= i ==> #[trigger] probs[j] >= cfg.neg_threshold
}

/// Window `i` is in one of the runs.
pub open spec fn covered(runs: Seq<Run>, i: int) -> bool {
    exists|k: int| 0 <= k < runs.len() && (#[trigger] runs[k]).0 <= i < runs[k].1
}

/// Windows `a` up to, but not with, `b` are in one run.
pub open spec fn in_one(runs: Seq<Run>, a: int, b: int) -> bool {
    exists|k: int| 0 <= k < runs.len() && (#[trigger] runs[k]).0 <= a && b <= runs[k].1
}

proof fn lemma_speech_goes_on(probs: Seq<i64>, cfg: VadConfig, i: int)
    requires
        cfg.neg_threshold <= cfg.threshold,
        0 <= i,
    ensures
        in_speech(probs, cfg, i) <==> probs[i] >= cfg.threshold || (i > 0 && in_speech(
            probs,
            cfg,
            i - 1,
        ) && probs[i] >= cfg.neg_threshold),
{
    if probs[i] >= cfg.threshold {
        assert(in_speech(probs, cfg, i));
    } else if in_speech(probs, cfg, i) {
        let s = choose|s: int|
            0 <= s <= i && #[trigger] probs[s] >= cfg.threshold && forall|j: int|
                s < j <= i ==> #[trigger] probs[j] >= cfg.neg_threshold;
        assert(s < i);
        assert(in_speech(probs, cfg, i - 1));
        assert(probs[i] >= cfg.neg_threshold);
    } else if i > 0 && in_speech(probs, cfg, i - 1) && probs[i] >= cfg.neg_threshold {
        let s = choose|s: int|
            0 <= s <= i - 1 && #[trigger] probs[s] >= cfg.threshold && forall|j: int|
                s < j <= i - 1 ==> #[trigger] probs[j] >= cfg.neg_threshold;
        assert(in_speech(probs, cfg, i));
    }
}

proof fn lemma_scanned_speech(probs: Seq<i64>, cfg: VadConfig, n: int)
    requires
        cfg.neg_threshold <= cfg.threshold,
        0 <= n <= probs.len(),
    ensures
        ({
            let (runs, open) = scanned(probs, cfg, n);
            &&& open is Some <==> n > 0 && in_speech(probs, cfg, n - 1)
            &&& forall|i: int|
                0 <= i < n ==> (#[trigger] in_speech(probs, cfg, i) <==> covered(runs, i) || (
                open is Some && open->0 <= i))
            &&& forall|k: int|
                0 <= k < runs.len() ==> (#[trigger] runs[k]).1 < n && probs[runs[k].1]
                    < cfg.neg_threshold
        }),
    decreases n,
{
    if n > 0 {
        lemma_scanned_speech(probs, cfg, n - 1);
        lemma_scanned_tidy(probs, cfg, n - 1);
        lemma_speech_goes_on(probs, cfg, n - 1);
        let (before, was) = scanned(probs, cfg, n - 1);
        let (runs, open) = scanned(probs, cfg, n);
        assert forall|i: int| 0 <= i < n implies (#[trigger] in_speech(probs, cfg, i) <==> covered(
            runs,
            i,
        ) || (open is Some && open->0 <= i)) by {
            if covered(before, i) {
                let k = choose|k: int|
                    0 <= k < before.len() && (#[trigger] before[k]).0 <= i < before[k].1;
                assert(runs[k] == before[k]);
            }
            if runs.len() > before.len() {
                assert(runs[before.len() as int] == (was->0, n - 1));
            }
            if covered(runs, i) {
                let k = choose|k: int|
                    0 <= k < runs.len() && (#[trigger] runs[k]).0 <= i < runs[k].1;
                if k < before.len() {
                    assert(before[k] == runs[k]);
                }
            }
        }
    }
}

/// Speech starts with a window that reaches the threshold and lasts until one falls below the
/// lower threshold.
pub proof fn law_runs_are_where_speech_is(probs: Seq<i64>, cfg: VadConfig, i: int)
    requires
        cfg.neg_threshold <= cfg.threshold,
        0 <= i < probs.len(),
    ensures
        covered(raw_runs(probs, cfg), i) <==> in_speech(probs, cfg, i),
{
    let n = probs.len() as int;
    lemma_scanned_speech(probs, cfg, n);
    lemma_scanned_tidy(probs, cfg, n);
    let (runs, open) = scanned(probs, cfg, n);
    let raw = raw_runs(probs, cfg);
    if covered(runs, i) {
        let k = choose|k: int| 0 <= k < runs.len() && (#[trigger] runs[k]).0 <= i < runs[k].1;
        assert(raw[k] == runs[k]);
    }
    if open is Some {
        assert(raw[runs.len() as int] == (open->0, n));
    }
    if covered(raw, i) {
        let k = choose|k: int| 0 <= k < raw.len() && (#[trigger] raw[k]).0 <= i < raw[k].1;
        if k < runs.len() {
            assert(runs[k] == raw[k]);
        }
    }
}

proof fn lemma_raw_tidy(probs: Seq<i64>, cfg: VadConfig)
    ensures
        tidy(raw_runs(probs, cfg), probs.len() as int),
{
    lemma_scanned_tidy(probs, cfg, probs.len() as int);
}

proof fn lemma_loud_in_one(probs: Seq<i64>, cfg: VadConfig, a: int, b: int)
    requires
        cfg.neg_threshold <= cfg.threshold,
        0 <= a < b <= probs.len(),
        forall|i: int| a <= i < b ==> #[trigger] probs[i] >= cfg.threshold,
    ensures
        in_one(raw_runs(probs, cfg), a, b),
{
    let n = probs.len() as int;
    assert(probs[a] >= cfg.threshold);
    assert(in_speech(probs, cfg, a));
    law_runs_are_where_speech_is(probs, cfg, a);
    lemma_scanned_speech(probs, cfg, n);
    let (runs, open) = scanned(probs, cfg, n);
    let raw = raw_runs(probs, cfg);
    let k = choose|k: int| 0 <= k < raw.len() && (#[trigger] raw[k]).0 <= a < raw[k].1;
    if raw[k].1 < b {
        assert(k < runs.len());
        assert(runs[k] == raw[k]);
        assert(probs[raw[k].1] >= cfg.threshold);
    }
}

proof fn lemma_tidy_head(runs: Seq<Run>, n: int)
    requires
        tidy(runs, n),
        runs.len() > 0,
    ensures
        tidy(runs.drop_last(), n),
{
    let head = runs.drop_last();
    assert forall|i: int, j: int| 0 <= i < j < head.len() implies (#[trigger] head[i]).1 <= (
    #[trigger] head[j]).0 by {
        assert(runs[i].1 <= runs[j].0);
    }
    assert forall|i: int| 0 <= i < head.len() implies 0 <= (#[trigger] head[i]).0 && head[i].0
        < head[i].1 && head[i].1 <= n by {
        assert(runs[i].0 < runs[i].1);
    }
}

proof fn lemma_merged_holds(runs: Seq<Run>, gap: int, n: int)
    requires
        tidy(runs, n),
    ensures
        forall|k: int|
            0 <= k < runs.len() ==> in_one(
                merged(runs, gap),
                (#[trigger] runs[k]).0,
                runs[k].1,
            ),
        forall|i: int|
            0 <= i < merged(runs, gap).len() - 1 ==> merged(runs, gap)[i + 1].0 - (
            #[trigger] merged(runs, gap)[i]).1 >= gap,
        forall|i: int| #[trigger]
            covered(merged(runs, gap), i) ==> covered(runs, i) || exists|k: int|
                0 <= k < runs.len() - 1 && (#[trigger] runs[k]).1 <= i < runs[k + 1].0 && runs[k
                    + 1].0 - runs[k].1 < gap,
    decreases runs.len(),
{
    if runs.len() > 0 {
        let head = runs.drop_last();
        let l = runs.len() - 1;
        let r = runs.last();
        lemma_tidy_head(runs, n);
        lemma_merged_holds(head, gap, n);
        lemma_merged_tidy(head, gap, n);
        lemma_merged_tidy(runs, gap, n);
        let rest = merged(head, gap);
        let m = merged(runs, gap);
        let q = m.len() - 1;
        if head.len() > 0 {
            assert(rest.last().1 == head.last().1);
            assert(runs[l - 1].1 <= runs[l].0);
            assert(head[l - 1] == runs[l - 1]);
        }
        let joins = head.len() > 0 && r.0 - rest.last().1 < gap;
        assert(m == if joins {
            rest.drop_last().push((rest.last().0, r.1))
        } else {
            rest.push(r)
        });
        assert(runs[l].0 < runs[l].1);
        assert forall|k: int| 0 <= k < runs.len() implies in_one(
            m,
            (#[trigger] runs[k]).0,
            runs[k].1,
        ) by {
            if k < l {
                assert(head[k] == runs[k]);
                assert(in_one(rest, head[k].0, head[k].1));
                let j = choose|j: int|
                    0 <= j < rest.len() && (#[trigger] rest[j]).0 <= head[k].0 && head[k].1
                        <= rest[j].1;
                if joins && j == rest.len() - 1 {
                    assert(m[q].0 <= runs[k].0 && runs[k].1 <= m[q].1);
                } else {
                    assert(m[j] == rest[j]);
                }
            } else {
                if joins {
                    assert(rest[rest.len() - 1].0 < rest[rest.len() - 1].1);
                }
                assert(m[q].0 <= r.0 && r.1 <= m[q].1);
            }
        }
        assert forall|i: int| 0 <= i < m.len() - 1 implies m[i + 1].0 - (#[trigger] m[i]).1
            >= gap by {
            assert(m[i] == rest[i]);
            if i + 1 < m.len() - 1 {
                assert(m[i + 1] == rest[i + 1]);
            } else if joins {
                assert(m[i + 1].0 == rest[i + 1].0);
            }
        }
        assert forall|i: int| #[trigger] covered(m, i) implies covered(runs, i) || exists|k: int|
            0 <= k < runs.len() - 1 && (#[trigger] runs[k]).1 <= i < runs[k + 1].0 && runs[k + 1].0
                - runs[k].1 < gap by {
            let j = choose|j: int| 0 <= j < m.len() && (#[trigger] m[j]).0 <= i < m[j].1;
            if j == q && r.0 <= i {
                assert(runs[l].0 <= i < runs[l].1);
            } else if j == q && joins && rest.last().1 <= i {
                assert(runs[l - 1].1 <= i < runs[l - 1 + 1].0);
            } else {
                if j < q {
                    assert(m[j] == rest[j]);
                } else {
                    assert(joins);
                    assert(rest[rest.len() - 1].0 <= i < rest[rest.len() - 1].1);
                }
                assert(covered(rest, i));
                if covered(head, i) {
                    let k = choose|k: int|
                        0 <= k < head.len() && (#[trigger] head[k]).0 <= i < head[k].1;
                    assert(runs[k] == head[k]);
                } else {
                    let k = choose|k: int|
                        0 <= k < head.len() - 1 && (#[trigger] head[k]).1 <= i < head[k + 1].0
                            && head[k + 1].0 - head[k].1 < gap;
                    assert(runs[k] == head[k] && runs[k + 1] == head[k + 1]);
                }
            }
        }
    }
}

/// Runs with a short silence between them become one, and others stay apart: of merged runs, each
/// holds whole runs and the short silences between them, and the silence between two of them is
/// no shorter than asked for.
pub proof fn law_short_silences_are_bridged(runs: Seq<Run>, gap: int, n: int, k: int)
    requires
        tidy(runs, n),
        0 <= k < runs.len() - 1,
        gap >= 1,
    ensures
        in_one(merged(runs, gap), runs[k].0, runs[k + 1].1) <==> runs[k + 1].0 - runs[k].1 < gap,
{
    lemma_merged_holds(runs, gap, n);
    lemma_merged_tidy(runs, gap, n);
    let m = merged(runs, gap);
    assert(in_one(m, runs[k].0, runs[k].1));
    assert(in_one(m, runs[k + 1].0, runs[k + 1].1));
    let a = choose|a: int|
        0 <= a < m.len() && (#[trigger] m[a]).0 <= runs[k].0 && runs[k].1 <= m[a].1;
    let b = choose|b: int|
        0 <= b < m.len() && (#[trigger] m[b]).0 <= runs[k + 1].0 && runs[k + 1].1 <= m[b].1;
    assert(runs[k].1 <= runs[k + 1].0);
    assert(runs[k].0 < runs[k].1 && runs[k + 1].0 < runs[k + 1].1);
    if a < b {
        assert(m[a + 1].0 - m[a].1 >= gap);
        if a + 1 < b {
            assert(m[a + 1].1 <= m[b].0 && m[a + 1].0 < m[a + 1].1);
        }
        assert(m[a].1 <= m[b].0);
    } else if b < a {
        assert(m[b].1 <= m[a].0);
    }
    if in_one(m, runs[k].0, runs[k + 1].1) && runs[k + 1].0 - runs[k].1 >= gap {
        let i = runs[k].1;
        let c = choose|c: int|
            0 <= c < m.len() && (#[trigger] m[c]).0 <= runs[k].0 && runs[k + 1].1 <= m[c].1;
        assert(m[c].0 <= i < m[c].1);
        assert(covered(m, i));
        if covered(runs, i) {
            let j = choose|j: int| 0 <= j < runs.len() && (#[trigger] runs[j]).0 <= i < runs[j].1;
            if j < k {
                assert(runs[j].1 <= runs[k].0);
            } else if j > k + 1 {
                assert(runs[k + 1].1 <= runs[j].0);
            }
        } else {
            let j = choose|j: int|
                0 <= j < runs.len() - 1 && (#[trigger] runs[j]).1 <= i < runs[j + 1].0 && runs[j
                    + 1].0 - runs[j].1 < gap;
            if j < k {
                assert(runs[j + 1].0 < runs[j + 1].1);
                if j + 1 < k {
                    assert(runs[j + 1].1 <= runs[k].0);
                }
            } else if j > k {
                assert(runs[j].0 < runs[j].1);
                if j > k + 1 {
                    assert(runs[k + 1].1 <= runs[j].0);
                }
            }
        }
    }
}

/// Runs that are too short are dropped, and only those.
pub proof fn law_short_runs_are_dropped(runs: Seq<Run>, least: int, r: Run)
    ensures
        long_runs(runs, least).contains(r) <==> runs.contains(r) && r.1 - r.0 >= least,
    decreases runs.len(),
{
    let l = long_runs(runs, least);
    if runs.len() > 0 {
        let head = runs.drop_last();
        law_short_runs_are_dropped(head, least, r);
        let rest = long_runs(head, least);
        if rest.contains(r) {
            let i = choose|i: int| 0 <= i < rest.len() && rest[i] == r;
            assert(l[i] == r);
        }
        if head.contains(r) {
            let i = choose|i: int| 0 <= i < head.len() && head[i] == r;
            assert(runs[i] == r);
        }
        if runs.contains(r) {
            let i = choose|i: int| 0 <= i < runs.len() && runs[i] == r;
            if i < head.len() {
                assert(head[i] == r);
            } else if r.1 - r.0 >= least {
                assert(l[l.len() - 1] == r);
            }
        }
        if l.contains(r) {
            let i = choose|i: int| 0 <= i < l.len() && l[i] == r;
            if i < rest.len() {
                assert(rest[i] == r);
            } else {
                assert(runs[runs.len() - 1] == r);
            }
        }
    }
}

proof fn lemma_pieces_cover(probs: Seq<i64>, s: int, e: int, most: int)
    requires
        s < e,
    ensures
        forall|i: int| #[trigger] covered(pieces(probs, s, e, most), i) <==> s <= i < e,
    decreases e - s,
{
    let p = pieces(probs, s, e, most);
    if e - s > most && most >= 3 {
        lemma_cut(probs, s, e, most);
        let c = cut_at(probs, s, e, most);
        lemma_pieces_cover(probs, c, e, most);
        let rest = pieces(probs, c, e, most);
        assert(p == seq![(s, c)] + rest);
        assert forall|i: int| #[trigger] covered(p, i) <==> s <= i < e by {
            if s <= i < c {
                assert(p[0].0 <= i < p[0].1);
            }
            if c <= i < e {
                assert(covered(rest, i));
                let k = choose|k: int|
                    0 <= k < rest.len() && (#[trigger] rest[k]).0 <= i < rest[k].1;
                assert(p[k + 1] == rest[k]);
            }
            if covered(p, i) {
                let k = choose|k: int| 0 <= k < p.len() && (#[trigger] p[k]).0 <= i < p[k].1;
                if k > 0 {
                    assert(p[k] == rest[k - 1]);
                    assert(covered(rest, i));
                }
            }
        }
    } else {
        assert forall|i: int| #[trigger] covered(p, i) <==> s <= i < e by {
            if s <= i < e {
                assert(p[0].0 <= i < p[0].1);
            }
        }
    }
}

proof fn lemma_all_pieces_cover(probs: Seq<i64>, runs: Seq<Run>, most: int, n: int)
    requires
        tidy(runs, n),
    ensures
        forall|i: int| #[trigger] covered(all_pieces(probs, runs, most), i) <==> covered(runs, i),
    decreases runs.len(),
{
    let p = all_pieces(probs, runs, most);
    if runs.len() > 0 {
        let head = runs.drop_last();
        let l = runs.len() - 1;
        lemma_tidy_head(runs, n);
        lemma_all_pieces_cover(probs, head, most, n);
        assert(runs[l].0 < runs[l].1);
        lemma_pieces_cover(probs, runs[l].0, runs[l].1, most);
        let a = all_pieces(probs, head, most);
        let b = pieces(probs, runs[l].0, runs[l].1, most);
        assert(p == a + b);
        assert forall|i: int| #[trigger] covered(p, i) <==> covered(runs, i) by {
            if covered(runs, i) {
                let k = choose|k: int|
                    0 <= k < runs.len() && (#[trigger] runs[k]).0 <= i < runs[k].1;
                if k < l {
                    assert(head[k] == runs[k]);
                    assert(covered(head, i));
                    assert(covered(a, i));
                    let j = choose|j: int| 0 <= j < a.len() && (#[trigger] a[j]).0 <= i < a[j].1;
                    assert(p[j] == a[j]);
                } else {
                    assert(covered(b, i));
                    let j = choose|j: int| 0 <= j < b.len() && (#[trigger] b[j]).0 <= i < b[j].1;
                    assert(p[a.len() + j] == b[j]);
                }
            }
            if covered(p, i) {
                let j = choose|j: int| 0 <= j < p.len() && (#[trigger] p[j]).0 <= i < p[j].1;
                if j < a.len() {
                    assert(a[j] == p[j]);
                    assert(covered(a, i));
                    let k = choose|k: int|
                        0 <= k < head.len() && (#[trigger] head[k]).0 <= i < head[k].1;
                    assert(runs[k] == head[k]);
                } else {
                    assert(b[j - a.len()] == p[j]);
                    assert(covered(b, i));
                    assert(runs[l].0 <= i < runs[l].1);
                }
            }
        }
    }
}

proof fn lemma_segment_kept(runs: Seq<Run>, cfg: VadConfig, n: int, k: int, i: int)
    requires
        0 <= i < k,
        start_of(runs, cfg, n, i) < end_of(runs, cfg, n, i),
    ensures
        segments_of(runs, cfg, n, k).contains(
            (start_of(runs, cfg, n, i), end_of(runs, cfg, n, i)),
        ),
    decreases k,
{
    let x = (start_of(runs, cfg, n, i), end_of(runs, cfg, n, i));
    let s = segments_of(runs, cfg, n, k);
    if i == k - 1 {
        assert(s[s.len() - 1] == x);
    } else {
        lemma_segment_kept(runs, cfg, n, k - 1, i);
        let rest = segments_of(runs, cfg, n, k - 1);
        let j = choose|j: int| 0 <= j < rest.len() && rest[j] == x;
        assert(s[j] == x);
    }
}

proof fn lemma_segment_of_run(runs: Seq<Run>, cfg: VadConfig, n: int, k: int, j: int)
    requires
        tidy(runs, n),
        0 <= k <= runs.len(),
        0 <= j < segments_of(runs, cfg, n, k).len(),
    ensures
        exists|i: int|
            0 <= i < k && (#[trigger] runs[i]).0 * 1024 - cfg.pad_ms * 32 <= segments_of(
                runs,
                cfg,
                n,
                k,
            )[j].0 && segments_of(runs, cfg, n, k)[j].1 <= runs[i].1 * 1024 + cfg.pad_ms * 32,
    decreases k,
{
    let rest = segments_of(runs, cfg, n, k - 1);
    let s = segments_of(runs, cfg, n, k);
    if j < rest.len() {
        lemma_segment_of_run(runs, cfg, n, k - 1, j);
        let i = choose|i: int|
            0 <= i < k - 1 && (#[trigger] runs[i]).0 * 1024 - cfg.pad_ms * 32 <= rest[j].0
                && rest[j].1 <= runs[i].1 * 1024 + cfg.pad_ms * 32;
        assert(s[j] == rest[j]);
        assert(runs[i].0 * 1024 - cfg.pad_ms * 32 <= s[j].0);
    } else {
        assert(runs[k - 1].0 * 1024 - cfg.pad_ms * 32 <= s[j].0);
    }
}

proof fn lemma_heard_on(runs: Seq<Run>, cfg: VadConfig, n: int, i: int, u: int)
    requires
        tidy(runs, n),
        0 <= i < runs.len(),
        start_of(runs, cfg, n, i) <= u < padded_end(runs[i], cfg, n),
    ensures
        heard(segments_of(runs, cfg, n, runs.len() as int), u),
    decreases runs.len() - i,
{
    let s = segments_of(runs, cfg, n, runs.len() as int);
    if u < end_of(runs, cfg, n, i) {
        lemma_segment_kept(runs, cfg, n, runs.len() as int, i);
        let j = choose|j: int|
            0 <= j < s.len() && s[j] == (start_of(runs, cfg, n, i), end_of(runs, cfg, n, i));
        assert(s[j].0 <= u < s[j].1);
    } else {
        assert(runs[i].1 <= runs[i + 1].0 && runs[i + 1].0 < runs[i + 1].1);
        lemma_heard_on(runs, cfg, n, i + 1, u);
    }
}

proof fn lemma_heard_back(runs: Seq<Run>, cfg: VadConfig, n: int, i: int, u: int)
    requires
        tidy(runs, n),
        0 <= i < runs.len(),
        padded_start(runs[i], cfg) <= u < padded_end(runs[i], cfg, n),
    ensures
        heard(segments_of(runs, cfg, n, runs.len() as int), u),
    decreases i,
{
    if u >= start_of(runs, cfg, n, i) {
        lemma_heard_on(runs, cfg, n, i, u);
    } else {
        assert(runs[i - 1].1 <= runs[i].0 && runs[i - 1].0 < runs[i - 1].1);
        lemma_heard_back(runs, cfg, n, i - 1, u);
    }
}

/// Runs of speech are heard whole, and no segment reaches further than the padding on either side
/// of a run; a run with room for the padding is a segment of its own, with all of it.
pub proof fn law_segments_pad_their_runs(probs: Seq<i64>, cfg: VadConfig, i: int, u: int)
    requires
        0 <= i < speech_runs(probs, cfg).len(),
    ensures
        ({
            let runs = speech_runs(probs, cfg);
            let r = runs[i];
            let pad = cfg.pad_ms * 32;
            &&& r.0 * 1024 <= u < r.1 * 1024 ==> heard(speech(probs, cfg), u)
            &&& heard(speech(probs, cfg), u) ==> exists|k: int|
                0 <= k < runs.len() && (#[trigger] runs[k]).0 * 1024 - pad <= u < runs[k].1 * 1024
                    + pad
            &&& pad <= r.0 * 1024 && r.1 * 1024 + pad <= probs.len() * 1024 && (i == 0 || runs[i
                - 1].1 * 1024 + 2 * pad <= r.0 * 1024) && (i == runs.len() - 1 || r.1 * 1024 + 2
                * pad <= runs[i + 1].0 * 1024) ==> speech(probs, cfg).contains(
                (r.0 * 1024 - pad, r.1 * 1024 + pad),
            )
        }),
{
    let n = probs.len() as int;
    lemma_speech_tidy(probs, cfg);
    let runs = speech_runs(probs, cfg);
    let r = runs[i];
    let pad = cfg.pad_ms * 32;
    assert(0 <= r.0 && r.0 < r.1 && r.1 <= n);
    if r.0 * 1024 <= u < r.1 * 1024 {
        lemma_heard_back(runs, cfg, n, i, u);
    }
    let s = speech(probs, cfg);
    if heard(s, u) {
        let j = choose|j: int| 0 <= j < s.len() && (#[trigger] s[j]).0 <= u < s[j].1;
        lemma_segment_of_run(runs, cfg, n, runs.len() as int, j);
        let k = choose|k: int|
            0 <= k < runs.len() && (#[trigger] runs[k]).0 * 1024 - cfg.pad_ms * 32 <= s[j].0
                && s[j].1 <= runs[k].1 * 1024 + cfg.pad_ms * 32;
        assert(runs[k].0 * 1024 - pad <= u < runs[k].1 * 1024 + pad);
    }
    if pad <= r.0 * 1024 && r.1 * 1024 + pad <= probs.len() * 1024 && (i == 0 || runs[i - 1].1
        * 1024 + 2 * pad <= r.0 * 1024) && (i == runs.len() - 1 || r.1 * 1024 + 2 * pad <= runs[i
        + 1].0 * 1024) {
        lemma_segment_kept(runs, cfg, n, runs.len() as int, i);
    }
}

proof fn lemma_speech_tidy(probs: Seq<i64>, cfg: VadConfig)
    ensures
        tidy(whole_runs(probs, cfg), probs.len() as int),
        tidy(speech_runs(probs, cfg), probs.len() as int),
{
    let n = probs.len() as int;
    lemma_raw_tidy(probs, cfg);
    let raw = raw_runs(probs, cfg);
    let gap = windows_in(cfg.min_silence_ms as int);
    lemma_merged_tidy(raw, gap, n);
    lemma_long_tidy(merged(raw, gap), least_windows(cfg), n);
    lemma_all_follow(probs, whole_runs(probs, cfg), most_windows(cfg), n);
}

/// Time `u` is in one of the segments.
pub open spec fn heard(segments: Seq<(int, int)>, u: int) -> bool {
    exists|k: int| 0 <= k < segments.len() && (#[trigger] segments[k]).0 <= u < segments[k].1
}

/// No lasting speech is lost: where windows that all reach the threshold follow each other for as
/// long as speech must last, every moment of them is in a segment.
pub proof fn law_lasting_speech_is_heard(probs: Seq<i64>, cfg: VadConfig, a: int, b: int, u: int)
    requires
        cfg.neg_threshold <= cfg.threshold,
        0 <= a < b <= probs.len(),
        forall|i: int| a <= i < b ==> #[trigger] probs[i] >= cfg.threshold,
        (b - a) * 32 >= cfg.min_speech_ms + 16,
        a * 1024 <= u < b * 1024,
    ensures
        heard(speech(probs, cfg), u),
{
    let n = probs.len() as int;
    let raw = raw_runs(probs, cfg);
    let gap = windows_in(cfg.min_silence_ms as int);
    let m = merged(raw, gap);
    let least = least_windows(cfg);
    let whole = whole_runs(probs, cfg);
    let runs = speech_runs(probs, cfg);
    lemma_raw_tidy(probs, cfg);
    lemma_merged_tidy(raw, gap, n);
    lemma_speech_tidy(probs, cfg);
    lemma_loud_in_one(probs, cfg, a, b);
    let k = choose|k: int| 0 <= k < raw.len() && (#[trigger] raw[k]).0 <= a && b <= raw[k].1;
    lemma_merged_holds(raw, gap, n);
    assert(in_one(m, raw[k].0, raw[k].1));
    let j = choose|j: int|
        0 <= j < m.len() && (#[trigger] m[j]).0 <= raw[k].0 && raw[k].1 <= m[j].1;
    assert(b - a >= least);
    assert(m.contains(m[j]));
    law_short_runs_are_dropped(m, least, m[j]);
    let w = choose|w: int| 0 <= w < whole.len() && whole[w] == m[j];
    let i = u / 1024;
    assert(a <= i < b);
    assert(whole[w].0 <= i < whole[w].1);
    assert(covered(whole, i));
    lemma_all_pieces_cover(probs, whole, most_windows(cfg), n);
    assert(covered(runs, i));
    let p = choose|p: int| 0 <= p < runs.len() && (#[trigger] runs[p]).0 <= i < runs[p].1;
    assert(runs[p].0 * 1024 <= u < runs[p].1 * 1024);
    law_segments_pad_their_runs(probs, cfg, p, u);
}

/// Silence is not heard: where no window reaches the threshold there are no segments, and in the
/// midst of windows below both thresholds that follow each other for as long as a silence must
/// last, further than the padding from either end, there is none.
pub proof fn law_lasting_silence_is_not_heard(
    probs: Seq<i64>,
    cfg: VadConfig,
    a: int,
    b: int,
    u: int,
)
    requires
        cfg.neg_threshold <= cfg.threshold,
    ensures
        (forall|i: int| 0 <= i < probs.len() ==> #[trigger] probs[i] < cfg.threshold) ==> speech(
            probs,
            cfg,
        ).len() == 0,
        0 <= a < b <= probs.len() && (forall|i: int|
            a <= i < b ==> #[trigger] probs[i] < cfg.neg_threshold) && (b - a) * 32
            >= cfg.min_silence_ms + 16 && a * 1024 + cfg.pad_ms * 32 <= u < b * 1024 - cfg.pad_ms
            * 32 ==> !heard(speech(probs, cfg), u),
{
    let n = probs.len() as int;
    let raw = raw_runs(probs, cfg);
    let gap = windows_in(cfg.min_silence_ms as int);
    let m = merged(raw, gap);
    let whole = whole_runs(probs, cfg);
    let runs = speech_runs(probs, cfg);
    lemma_raw_tidy(probs, cfg);
    lemma_merged_tidy(raw, gap, n);
    lemma_merged_holds(raw, gap, n);
    lemma_speech_tidy(probs, cfg);
    lemma_all_pieces_cover(probs, whole, most_windows(cfg), n);
    lemma_long_tidy(m, least_windows(cfg), n);
    assert forall|i: int| #[trigger] covered(runs, i) implies covered(m, i) by {
        assert(covered(whole, i));
        let k = choose|k: int| 0 <= k < whole.len() && (#[trigger] whole[k]).0 <= i < whole[k].1;
        assert(m.contains(whole[k]));
        let j = choose|j: int| 0 <= j < m.len() && m[j] == whole[k];
        assert(m[j].0 <= i < m[j].1);
    }
    if forall|i: int| 0 <= i < probs.len() ==> #[trigger] probs[i] < cfg.threshold {
        if raw.len() > 0 {
            let i = raw[0].0;
            assert(raw[0].0 <= i < raw[0].1);
            assert(covered(raw, i));
            law_runs_are_where_speech_is(probs, cfg, i);
        }
        assert(raw =~= Seq::<Run>::empty());
        assert(m.len() == 0);
        if runs.len() > 0 {
            assert(runs[0].0 < runs[0].1);
            assert(covered(runs, runs[0].0));
            assert(covered(m, runs[0].0));
        }
        assert(runs.len() == 0);
    }
    if 0 <= a < b <= probs.len() && (forall|i: int|
        a <= i < b ==> #[trigger] probs[i] < cfg.neg_threshold) && (b - a) * 32
        >= cfg.min_silence_ms + 16 && a * 1024 + cfg.pad_ms * 32 <= u < b * 1024 - cfg.pad_ms * 32 {
        assert forall|i: int| a <= i < b implies !#[trigger] covered(raw, i) by {
            law_runs_are_where_speech_is(probs, cfg, i);
            assert(probs[i] < cfg.neg_threshold);
            lemma_speech_goes_on(probs, cfg, i);
        }
        assert(b - a >= gap);
        assert forall|i: int| a <= i < b implies !#[trigger] covered(m, i) by {
            if covered(m, i) {
                assert(!covered(raw, i));
                let k = choose|k: int|
                    0 <= k < raw.len() - 1 && (#[trigger] raw[k]).1 <= i < raw[k + 1].0 && raw[k
                        + 1].0 - raw[k].1 < gap;
                assert(raw[k].0 < raw[k].1 && raw[k + 1].0 < raw[k + 1].1);
                if raw[k].1 > a {
                    let x = raw[k].1 - 1;
                    assert(raw[k].0 <= x < raw[k].1);
                    assert(covered(raw, x));
                }
                if raw[k + 1].0 < b {
                    let x = raw[k + 1].0;
                    assert(raw[k + 1].0 <= x < raw[k + 1].1);
                    assert(covered(raw, x));
                }
            }
        }
        if heard(speech(probs, cfg), u) {
            let s = speech(probs, cfg);
            let j = choose|j: int| 0 <= j < s.len() && (#[trigger] s[j]).0 <= u < s[j].1;
            lemma_segment_of_run(runs, cfg, n, runs.len() as int, j);
            let k = choose|k: int|
                0 <= k < runs.len() && (#[trigger] runs[k]).0 * 1024 - cfg.pad_ms * 32 <= s[j].0
                    && s[j].1 <= runs[k].1 * 1024 + cfg.pad_ms * 32;
            let r = runs[k];
            assert(r.0 < r.1);
            if r.0 >= b {
                assert(r.0 * 1024 >= b * 1024);
            } else if r.1 <= a {
                assert(r.1 * 1024 <= a * 1024);
            } else {
                let x = if r.0 < a {
                    a
                } else {
                    r.0
                };
                assert(runs[k].0 <= x < runs[k].1);
                assert(covered(runs, x));
                assert(covered(m, x));
            }
        }
    }
}

/// A run that is too long is cut before the quietest window of the second and third thirds of what
/// fits, the first of equals.
pub proof fn law_long_runs_are_cut_where_it_is_quietest(
    probs: Seq<i64>,
    s: int,
    e: int,
    most: int,
    j: int,
)
    requires
        e - s > most,
        most >= 3,
        s + most / 3 <= j < s + most,
        j < e - 1,
    ensures
        ({
            let c = cut_at(probs, s, e, most);
            &&& s + most / 3 <= c < s + most
            &&& c < e - 1
            &&& probs[c] <= probs[j]
            &&& j < c ==> probs[c] < probs[j]
        }),
{
    lemma_quietest_is(probs, s + most / 3, smaller(s + most, e - 1));
}

proof fn lemma_quietest_is(probs: Seq<i64>, lo: int, hi: int)
    ensures
        match quietest(probs, lo, hi) {
            Some(c) => lo <= c < hi && forall|j: int|
                lo <= j < hi ==> probs[c] <= #[trigger] probs[j] && (j < c ==> probs[c] < probs[j]),
            None => hi <= lo,
        },
    decreases hi - lo,
{
    if hi > lo {
        lemma_quietest_is(probs, lo, hi - 1);
    }
}

/// The pieces of a run follow each other from its start to its end, each but the last ends where
/// a run from its start on is cut, and none is longer than fits.
pub proof fn law_pieces_of_a_run_follow(probs: Seq<i64>, s: int, e: int, most: int, k: int)
    requires
        s < e,
        most >= 3,
        0 <= k < pieces(probs, s, e, most).len(),
    ensures
        ({
            let p = pieces(probs, s, e, most);
            &&& p[0].0 == s
            &&& p.last().1 == e
            &&& p[k].1 - p[k].0 <= most
            &&& k + 1 < p.len() ==> p[k + 1].0 == p[k].1 && p[k].1 == cut_at(
                probs,
                p[k].0,
                e,
                most,
            ) && e - p[k].0 > most
        }),
    decreases e - s,
{
    if e - s > most {
        lemma_cut(probs, s, e, most);
        let c = cut_at(probs, s, e, most);
        let rest = pieces(probs, c, e, most);
        let p = pieces(probs, s, e, most);
        assert(p == seq![(s, c)] + rest);
        if k > 0 {
            law_pieces_of_a_run_follow(probs, c, e, most, k - 1);
            assert(p[k] == rest[k - 1]);
            if k + 1 < p.len() {
                assert(p[k + 1] == rest[k]);
            }
        } else {
            law_pieces_of_a_run_follow(probs, c, e, most, 0);
            assert(p[1] == rest[0]);
        }
        assert(p.last() == rest.last());
    }
}

/// Times are counted in windows of 32 milliseconds, to the nearest; speech lasts one window at
/// least, and a segment is not cut before it has twice as many windows as the shortest speech.
pub proof fn law_windows_are_counted(cfg: VadConfig, ms: int)
    requires
        ms >= 0,
    ensures
        -16 <= windows_in(ms) * 32 - ms <= 16,
        least_windows(cfg) >= 1,
        cfg.min_speech_ms >= 32 ==> -16 <= least_windows(cfg) * 32 - cfg.min_speech_ms <= 16,
        most_windows(cfg) >= 2 * least_windows(cfg),
        most_windows(cfg) * 32 <= cfg.max_segment_ms || most_windows(cfg) == 2 * least_windows(cfg),
        (most_windows(cfg) + 1) * 32 > cfg.max_segment_ms,
{
}

/// Speech adds up: what several segments last is what the first last and what the others last.
pub proof fn law_speech_adds_up(a: Seq<(int, int)>, b: Seq<(int, int)>, s: (int, int))
    ensures
        total_speech(a + b) == total_speech(a) + total_speech(b),
        total_speech(seq![s]) == s.1 - s.0,
    decreases b.len(),
{
    reveal_with_fuel(total_speech, 2);
    assert(seq![s].drop_last() =~= Seq::<(int, int)>::empty());
    if b.len() == 0 {
        assert(a + b =~= a);
    } else {
        law_speech_adds_up(a, b.drop_last(), s);
        assert((a + b).drop_last() =~= a + b.drop_last());
    }
}

/// The samples of a segment are those between its times, two units to a sample, as far as there
/// are samples; a segment without samples is left out, and no other.
pub proof fn law_segments_have_their_samples(segments: Seq<SpeechSegment>, len: int, n: int, k: int)
    requires
        0 <= len,
        0 <= n <= segments.len(),
    ensures
        sounding(segments, len, n).contains(k) <==> 0 <= k < n && segments[k].t0 as int / 2 < len
            && segments[k].t0 as int / 2 < segments[k].t1 as int / 2,
        0 <= k < segments.len() && segments[k].t0 <= segments[k].t1 && segments[k].t1 <= 2 * len
            ==> sample_range(segments[k], len) == (
            segments[k].t0 as int / 2,
            segments[k].t1 as int / 2,
        ),
    decreases n,
{
    if n > 0 {
        law_segments_have_their_samples(segments, len, n - 1, k);
        let rest = sounding(segments, len, n - 1);
        let l = sounding(segments, len, n);
        if rest.contains(k) {
            let i = choose|i: int| 0 <= i < rest.len() && rest[i] == k;
            assert(l[i] == k);
        }
        if l.contains(k) {
            let i = choose|i: int| 0 <= i < l.len() && l[i] == k;
            if i < rest.len() {
                assert(rest[i] == k);
            }
        }
        if l.len() > rest.len() {
            assert(l[l.len() - 1] == n - 1);
        }
    }
}

proof fn lemma_segments_short(runs: Seq<Run>, cfg: VadConfig, n: int, k: int, most: int)
    requires
        inside(runs, n),
        0 <= k <= runs.len(),
        forall|i: int| 0 <= i < runs.len() ==> (#[trigger] runs[i]).1 - runs[i].0 <= most,
    ensures
        forall|i: int|
            0 <= i < segments_of(runs, cfg, n, k).len() ==> (#[trigger] segments_of(
                runs,
                cfg,
                n,
                k,
            )[i]).1 - segments_of(runs, cfg, n, k)[i].0 <= most * 1024 + 2 * cfg.pad_ms * 32,
    decreases k,
{
    if k > 0 {
        lemma_segments_short(runs, cfg, n, k - 1, most);
        let r = runs[k - 1];
        assert(0 <= r.0 <= r.1 <= n && r.1 - r.0 <= most);
        let rest = segments_of(runs, cfg, n, k - 1);
        let g = segments_of(runs, cfg, n, k);
        assert forall|i: int| 0 <= i < g.len() implies (#[trigger] g[i]).1 - g[i].0 <= most * 1024
            + 2 * cfg.pad_ms * 32 by {
            if i < rest.len() {
                assert(g[i] == rest[i]);
            }
        }
    }
}

/// The half samples of speech in segments.
pub open spec fn total_speech(s: Seq<(int, int)>) -> int
    decreases s.len(),
{
    if s.len() == 0 {
        0
    } else {
        total_speech(s.drop_last()) + (s.last().1 - s.last().0)
    }
}

/// Total length of speech in a set of segments, in half samples.
pub fn speech_units(segments: &Vec<SpeechSegment>) -> (r: i128)
    requires
        segments@.len() < 0x10_0000_0000_0000,
    ensures
        r == total_speech(segment_views(segments@)),
{
    let ghost all = segment_views(segments@);
    let mut sum: i128 = 0;
    let mut i: usize = 0;
    proof {
        assert(all.take(0) =~= Seq::<(int, int)>::empty());
    }
    while i < segments.len()
        invariant
            i <= segments@.len() < 0x10_0000_0000_0000,
            all == segment_views(segments@),
            sum == total_speech(all.take(i as int)),
            -0x1_0000_0000_0000_0000 * i <= sum <= 0x1_0000_0000_0000_0000 * i,
        decreases segments@.len() - i,
    {
        proof {
            assert(all.take(i + 1).drop_last() =~= all.take(i as int));
            assert(all.take(i + 1).last() == (
                segments@[i as int].t0 as int,
                segments@[i as int].t1 as int,
            ));
        }
        sum = sum + (segments[i].t1 as i128 - segments[i].t0 as i128);
        i = i + 1;
    }
    proof {
        assert(all.take(i as int) =~= all);
    }
    sum
}

/// The samples of a segment in audio of `len` samples.
pub open spec fn sample_range(s: SpeechSegment, len: int) -> (int, int) {
    let a = smaller(s.t0 as int / 2, len);
    let b = smaller(larger(s.t1 as int / 2, a), len);
    (a, b)
}

/// A segment of speech with where its samples are.
#[derive(Clone, Copy, Debug, PartialEq, Eq, Structural)]
pub struct SpeechRange {
    /// Place among the segments.
    pub index: u64,
    /// First sample.
    pub from: usize,
    /// End of the samples.
    pub to: usize,
    /// Start from the start of the audio.
    pub t0: Timestamp,
    /// End from the start of the audio.
    pub t1: Timestamp,
}

/// A segment's range.
pub open spec fn is_range(r: SpeechRange, s: SpeechSegment, i: int, len: int) -> bool {
    &&& r.index == i
    &&& (r.from as int, r.to as int) == sample_range(s, len)
    &&& r.t0 == (Timestamp { num: ((s.t0 as int + 1) / 2) as i64, den: SAMPLE_RATE })
    &&& r.t1 == (Timestamp { num: ((s.t1 as int + 1) / 2) as i64, den: SAMPLE_RATE })
}

/// The places of the first `n` segments that have samples.
pub open spec fn sounding(segments: Seq<SpeechSegment>, len: int, n: int) -> Seq<int>
    decreases n,
{
    if n <= 0 {
        Seq::empty()
    } else {
        let rest = sounding(segments, len, n - 1);
        let (a, b) = sample_range(segments[n - 1], len);
        if b > a {
            rest.push(n - 1)
        } else {
            rest
        }
    }
}

/// The ranges of segments in audio of `len` samples; those without samples are left out.
pub fn speech_ranges(segments: &Vec<SpeechSegment>, len: usize) -> (r: Vec<SpeechRange>)
    requires
        forall|i: int|
            0 <= i < segments@.len() ==> (#[trigger] segments@[i]).t0 < 0x8000_0000_0000_0000
                && segments@[i].t1 < 0x8000_0000_0000_0000,
    ensures
        r@.len() == sounding(segments@, len as int, segments@.len() as int).len(),
        forall|k: int|
            0 <= k < r@.len() ==> ({
                let i = sounding(segments@, len as int, segments@.len() as int)[k];
                is_range(#[trigger] r@[k], segments@[i], i, len as int)
            }),
{
    let mut out: Vec<SpeechRange> = Vec::new();
    let mut i: usize = 0;
    while i < segments.len()
        invariant
            i <= segments@.len(),
            forall|i: int|
                0 <= i < segments@.len() ==> (#[trigger] segments@[i]).t0 < 0x8000_0000_0000_0000
                    && segments@[i].t1 < 0x8000_0000_0000_0000,
            out@.len() == sounding(segments@, len as int, i as int).len(),
            forall|k: int|
                0 <= k < out@.len() ==> ({
                    let j = sounding(segments@, len as int, i as int)[k];
                    is_range(#[trigger] out@[k], segments@[j], j, len as int)
                }),
        decreases segments@.len() - i,
    {
        let s = segments[i];
        let n: u64 = len as u64;
        let a: u64 = if s.t0 / 2 < n {
            s.t0 / 2
        } else {
            n
        };
        let c: u64 = if s.t1 / 2 < a {
            a
        } else {
            s.t1 / 2
        };
        let b: u64 = if c < n {
            c
        } else {
            n
        };
        let ghost before = sounding(segments@, len as int, i as int);
        let ghost old_out = out@;
        if b > a {
            out.push(
                SpeechRange {
                    index: i as u64,
                    from: a as usize,
                    to: b as usize,
                    t0: Timestamp::new(((s.t0 + 1) / 2) as i64, SAMPLE_RATE),
                    t1: Timestamp::new(((s.t1 + 1) / 2) as i64, SAMPLE_RATE),
                },
            );
            proof {
                let now = sounding(segments@, len as int, i + 1);
                assert(now == before.push(i as int));
                assert forall|k: int| 0 <= k < out@.len() implies ({
                    let j = now[k];
                    is_range(#[trigger] out@[k], segments@[j], j, len as int)
                }) by {
                    if k < old_out.len() {
                        assert(out@[k] == old_out[k]);
                        assert(now[k] == before[k]);
                    }
                }
            }
        }
        i = i + 1;
    }
    out
}

/// Samples that a window carries over from the one before.
pub const CONTEXT: usize = 64;

/// Windows one behind the other.
pub open spec fn laid_out(w: Seq<Vec<i16>>, n: int) -> Seq<i16>
    decreases n,
{
    if n <= 0 {
        Seq::empty()
    } else {
        laid_out(w, n - 1) + w[n - 1]@
    }
}

/// Audio that comes in any pieces, cut into windows.
#[derive(Debug)]
pub struct Windows {
    pending: Vec<i16>,
}

impl View for Windows {
    type V = Seq<i16>;

    closed spec fn view(&self) -> Seq<i16> {
        self.pending@
    }
}

impl Windows {
    /// What waits is less than a window.
    pub open spec fn wf(self) -> bool {
        self@.len() < 512
    }

    /// Nothing came yet.
    pub fn new() -> (w: Windows)
        ensures
            w.wf(),
            w@ == Seq::<i16>::empty(),
    {
        Windows { pending: Vec::new() }
    }

    /// Adds samples: the windows that are complete now. Nothing is lost or repeated.
    pub fn push(&mut self, samples: &[i16]) -> (r: Vec<Vec<i16>>)
        requires
            old(self).wf(),
        ensures
            final(self).wf(),
            forall|i: int| 0 <= i < r@.len() ==> (#[trigger] r@[i])@.len() == 512,
            laid_out(r@, r@.len() as int) + final(self)@ == old(self)@ + samples@,
    {
        let ghost start = self.pending@;
        let n: usize = samples.len();
        let mut out: Vec<Vec<i16>> = Vec::new();
        let mut i: usize = 0;
        proof {
            assert(laid_out(out@, 0) + self.pending@ =~= start + samples@.take(0));
        }
        while i < n
            invariant
                i <= n == samples@.len(),
                self.pending@.len() < 512,
                forall|k: int| 0 <= k < out@.len() ==> (#[trigger] out@[k])@.len() == 512,
                laid_out(out@, out@.len() as int) + self.pending@ == start + samples@.take(
                    i as int,
                ),
            decreases n - i,
        {
            let ghost before = laid_out(out@, out@.len() as int);
            let ghost had = self.pending@;
            self.pending.push(samples[i]);
            proof {
                assert(samples@.take(i + 1) =~= samples@.take(i as int).push(samples@[i as int]));
                assert(before + self.pending@ =~= (before + had).push(samples@[i as int]));
                assert(start + samples@.take(i + 1) =~= (start + samples@.take(i as int)).push(
                    samples@[i as int],
                ));
            }
            if self.pending.len() == 512 {
                let mut w: Vec<i16> = Vec::new();
                w.append(&mut self.pending);
                let ghost made = out@;
                out.push(w);
                proof {
                    lemma_laid_out(made, out@, made.len() as int);
                    assert(self.pending@ =~= Seq::<i16>::empty());
                    assert(laid_out(out@, out@.len() as int) + self.pending@ =~= start
                        + samples@.take(i + 1));
                }
            }
            i = i + 1;
        }
        proof {
            assert(samples@.take(n as int) =~= samples@);
        }
        out
    }

    /// The last window, filled up with silence, if anything waits.
    pub fn finish(self) -> (r: Option<Vec<i16>>)
        requires
            self.wf(),
        ensures
            match r {
                Some(w) => self@.len() > 0 && w@ == self@ + Seq::new(
                    (512 - self@.len()) as nat,
                    |i: int| 0i16,
                ),
                None => self@.len() == 0,
            },
    {
        let mut w: Vec<i16> = self.pending;
        let ghost start = w@;
        if w.len() == 0 {
            return None;
        }
        while w.len() < 512
            invariant
                start.len() <= w@.len() <= 512,
                w@ == start + Seq::new((w@.len() - start.len()) as nat, |i: int| 0i16),
            decreases 512 - w@.len(),
        {
            w.push(0);
            proof {
                assert(w@ =~= start + Seq::new((w@.len() - start.len()) as nat, |i: int| 0i16));
            }
        }
        Some(w)
    }
}

proof fn lemma_laid_out(a: Seq<Vec<i16>>, b: Seq<Vec<i16>>, n: int)
    requires
        n <= a.len(),
        n <= b.len(),
        forall|i: int| 0 <= i < n ==> a[i] == b[i],
    ensures
        laid_out(a, n) == laid_out(b, n),
    decreases n,
{
    if n > 0 {
        lemma_laid_out(a, b, n - 1);
    }
}

proof fn lemma_laid_out_at(w: Seq<Vec<i16>>, n: int, i: int, k: int)
    requires
        0 <= i < n <= w.len(),
        0 <= k < 512,
        forall|j: int| 0 <= j < n ==> (#[trigger] w[j])@.len() == 512,
    ensures
        laid_out(w, n).len() == 512 * n,
        laid_out(w, n)[512 * i + k] == w[i]@[k],
    decreases n,
{
    if n > 1 {
        if i < n - 1 {
            lemma_laid_out_at(w, n - 1, i, k);
        } else {
            lemma_laid_out_at(w, n - 1, 0, 0);
        }
    } else {
        assert(laid_out(w, 0).len() == 0);
    }
}

/// Audio is cut into the same windows however it comes: two ways to lay out the same samples in
/// windows, with less than a window left over, are the same way.
pub proof fn law_windows_ignore_delivery(
    a: Seq<Vec<i16>>,
    b: Seq<Vec<i16>>,
    rest_a: Seq<i16>,
    rest_b: Seq<i16>,
)
    requires
        forall|i: int| 0 <= i < a.len() ==> (#[trigger] a[i])@.len() == 512,
        forall|i: int| 0 <= i < b.len() ==> (#[trigger] b[i])@.len() == 512,
        rest_a.len() < 512,
        rest_b.len() < 512,
        laid_out(a, a.len() as int) + rest_a == laid_out(b, b.len() as int) + rest_b,
    ensures
        a.len() == b.len(),
        forall|i: int| 0 <= i < a.len() ==> (#[trigger] a[i])@ == b[i]@,
        rest_a == rest_b,
{
    let (la, lb) = (laid_out(a, a.len() as int), laid_out(b, b.len() as int));
    if a.len() > 0 {
        lemma_laid_out_at(a, a.len() as int, 0, 0);
    }
    if b.len() > 0 {
        lemma_laid_out_at(b, b.len() as int, 0, 0);
    }
    assert((la + rest_a).len() == (lb + rest_b).len());
    let n = a.len() as int;
    assert forall|i: int| 0 <= i < n implies (#[trigger] a[i])@ == b[i]@ by {
        assert forall|k: int| 0 <= k < 512 implies a[i]@[k] == b[i]@[k] by {
            lemma_laid_out_at(a, n, i, k);
            lemma_laid_out_at(b, n, i, k);
            assert((la + rest_a)[512 * i + k] == (lb + rest_b)[512 * i + k]);
        }
        assert(b[i]@.len() == 512);
        assert(a[i]@ =~= b[i]@);
    }
    assert forall|k: int| 0 <= k < rest_a.len() implies rest_a[k] == rest_b[k] by {
        assert((la + rest_a)[512 * n + k] == (lb + rest_b)[512 * n + k]);
    }
    assert(rest_a =~= rest_b);
}

/// The least number of groups of `size` that hold `n`.
pub open spec fn groups(n: int, size: int) -> int {
    (n + size - 1) / size
}

/// A recording shared out for scoring in lockstep.
#[derive(Clone, Copy, Debug, PartialEq, Eq, Structural)]
pub struct Lockstep {
    /// Windows of the recording, the last one perhaps not full.
    pub windows: usize,
    /// Parts that are scored side by side.
    pub parts: usize,
    /// Windows of each part.
    pub per_part: usize,
}

/// Shares out a recording of `samples` samples among at most `batch` parts; none if it is empty.
pub fn plan_lockstep(samples: usize, batch: usize) -> (r: Option<Lockstep>)
    requires
        samples <= usize::MAX - 512,
    ensures
        match r {
            None => samples == 0,
            Some(p) => {
                let b = larger(batch as int, 1);
                &&& samples > 0
                &&& p.windows == groups(samples as int, 512)
                &&& p.per_part == groups(p.windows as int, b)
                &&& p.parts == groups(p.windows as int, p.per_part as int)
                &&& 1 <= p.per_part <= p.windows
                &&& 1 <= p.parts <= p.windows
            },
        },
{
    if samples == 0 {
        return None;
    }
    let windows: usize = (samples + 511) / 512;
    let b: usize = if batch < 1 {
        1
    } else {
        batch
    };
    let per_part: usize = div_up(windows, b);
    let parts: usize = div_up(windows, per_part);
    Some(Lockstep { windows, parts, per_part })
}

fn div_up(n: usize, d: usize) -> (r: usize)
    requires
        n >= 1,
        d >= 1,
    ensures
        r == groups(n as int, d as int),
        1 <= r <= n,
{
    proof {
        let (a, b) = (n as int, d as int);
        assert(1 <= (a + b - 1) / b <= a) by (nonlinear_arith)
            requires
                a >= 1,
                b >= 1,
        ;
        assert((a + b - 1) / b == (if a % b == 0 {
            a / b
        } else {
            a / b + 1
        })) by (nonlinear_arith)
            requires
                a >= 1,
                b >= 1,
        ;
    }
    if n % d == 0 {
        n / d
    } else {
        n / d + 1
    }
}

/// Sample `i` of a recording; silence behind its end.
pub open spec fn sample_at(s: Seq<i16>, i: int) -> i16 {
    if 0 <= i < s.len() {
        s[i]
    } else {
        0
    }
}

/// Value `x` of what the model is given for window `j` of part `b`: the end of the window
/// before, or silence, and the window.
pub open spec fn lockstep_value(s: Seq<i16>, p: Lockstep, j: int, b: int, x: int) -> i16 {
    let off = (b * p.per_part + j) * 512;
    if x < 64 && j == 0 {
        0
    } else {
        sample_at(s, off + x - 64)
    }
}

/// What the model is given for step `j`: for each part the context and the window.
pub fn lockstep_input(samples: &Vec<i16>, p: Lockstep, j: usize) -> (r: Vec<i16>)
    requires
        j < p.per_part,
        p.parts * p.per_part * 512 <= usize::MAX,
        p.parts * 576 <= usize::MAX,
    ensures
        r@.len() == p.parts * 576,
        forall|k: int|
            0 <= k < r@.len() ==> #[trigger] r@[k] == lockstep_value(
                samples@,
                p,
                j as int,
                k / 576,
                k % 576,
            ),
{
    let n: usize = samples.len();
    let total: usize = p.parts * 576;
    let mut out: Vec<i16> = Vec::new();
    let mut k: usize = 0;
    while k < total
        invariant
            k <= total == p.parts * 576,
            n == samples@.len(),
            j < p.per_part,
            p.parts * p.per_part * 512 <= usize::MAX,
            out@.len() == k,
            forall|i: int|
                0 <= i < k ==> #[trigger] out@[i] == lockstep_value(
                    samples@,
                    p,
                    j as int,
                    i / 576,
                    i % 576,
                ),
        decreases total - k,
    {
        let b: usize = k / 576;
        let x: usize = k % 576;
        proof {
            let (bb, pp, m, jj) = (b as int, p.per_part as int, p.parts as int, j as int);
            assert(0 <= bb * pp && bb * pp + jj + 1 <= m * pp) by (nonlinear_arith)
                requires
                    0 <= bb < m,
                    0 <= jj < pp,
            ;
        }
        let v: i16 = if x < 64 && j == 0 {
            0
        } else {
            let off: usize = (b * p.per_part + j) * 512;
            proof {
                if x < 64 {
                    assert(off >= 512);
                }
            }
            if x < 64 {
                let at: usize = off - (64 - x);
                if at < n {
                    samples[at]
                } else {
                    0
                }
            } else {
                let back: usize = x - 64;
                if off < n && back < n - off {
                    samples[off + back]
                } else {
                    0
                }
            }
        };
        out.push(v);
        k = k + 1;
    }
    out
}

/// Puts the probabilities of all steps into the order of time. `steps` has a row for each step
/// with a probability for each part.
pub fn in_time_order(steps: &Vec<Vec<i64>>, p: Lockstep) -> (r: Vec<i64>)
    requires
        p.per_part > 0,
        steps@.len() == p.per_part,
        p.windows <= p.parts * p.per_part,
        forall|j: int| 0 <= j < steps@.len() ==> (#[trigger] steps@[j])@.len() == p.parts,
    ensures
        r@.len() == p.windows,
        forall|i: int|
            0 <= i < r@.len() ==> #[trigger] r@[i] == steps@[i % p.per_part as int]@[i
                / p.per_part as int],
{
    let mut out: Vec<i64> = Vec::new();
    let mut i: usize = 0;
    while i < p.windows
        invariant
            i <= p.windows,
            p.per_part > 0,
            steps@.len() == p.per_part,
            p.windows <= p.parts * p.per_part,
            forall|j: int| 0 <= j < steps@.len() ==> (#[trigger] steps@[j])@.len() == p.parts,
            out@.len() == i,
            forall|k: int|
                0 <= k < i ==> #[trigger] out@[k] == steps@[k % p.per_part as int]@[k
                    / p.per_part as int],
        decreases p.windows - i,
    {
        proof {
            let (ii, m, n) = (i as int, p.per_part as int, p.parts as int);
            assert(0 <= ii / m < n) by (nonlinear_arith)
                requires
                    0 <= ii < n * m,
                    m > 0,
            ;
        }
        let row = &steps[i % p.per_part];
        out.push(row[i / p.per_part]);
        i = i + 1;
    }
    out
}

/// Checks the sizes of what the model gave back for a step of `parts` parts.
pub fn check_step(probs: usize, state: usize, parts: usize) -> (r: Result<(), PerceiveError>)
    requires
        parts * 256 <= usize::MAX,
    ensures
        r is Ok <==> state == 2 * parts * 128 && probs == parts,
        r matches Err(e) ==> (e matches PerceiveError::Onnx(m) && m@
            == "unexpected VAD output sizes: probs "@ + text::decimal(probs as nat) + " state "@
            + text::decimal(state as nat)),
{
    if state != parts * 256 || probs != parts {
        let mut m = "unexpected VAD output sizes: probs ".to_owned();
        m.append(text::decimal_string(probs as u64).as_str());
        m.append(" state ");
        m.append(text::decimal_string(state as u64).as_str());
        return Err(PerceiveError::Onnx(m));
    }
    Ok(())
}

} // verus!
