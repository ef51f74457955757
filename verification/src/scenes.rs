//! Scenes: shots grouped by how alike they look and by speech that crosses
//! their boundaries.
//!
//! Times are in nanoseconds, similarities in millionths.

use vstd::prelude::*;

use crate::decode;
use crate::model;
use crate::model::{Segment, SegmentLevel};
use crate::text;
use crate::timestamp;
use crate::timestamp::Timestamp;

verus! {

/// Shortest scene; shorter ones join a neighbour.
pub const MIN_SCENE_NANOS: i128 = 20_000_000_000;

/// Longest scene; longer shots are cut.
pub const MAX_SCENE_NANOS: i128 = 180_000_000_000;

/// The largest time, before or after zero.
pub const MAX_TIME: i128 = 0x1000_0000_0000_0000_0000_0000_0000;

/// All times of ranges are in bounds.
pub open spec fn bounded(shots: Seq<(i128, i128)>) -> bool {
    forall|i: int|
        0 <= i < shots.len() ==> -MAX_TIME <= (#[trigger] shots[i]).0 <= MAX_TIME && -MAX_TIME
            <= shots[i].1 <= MAX_TIME
}

/// How strong the break between two shots is, in halves of a millionth: two million for a clean
/// break, less the more alike the shots look, half of that when speech crosses.
pub open spec fn strength(sim: Option<i64>, crosses: bool) -> int {
    let s = match sim {
        Some(v) => if v > 1_000_000 {
            0
        } else if v < 0 {
            1_000_000
        } else {
            1_000_000 - v
        },
        None => 500_000,
    };
    if crosses {
        s
    } else {
        2 * s
    }
}

/// How strong the break between two shots is.
pub fn boundary_strength(sim: Option<i64>, span_crosses: bool) -> (r: i64)
    ensures
        r == strength(sim, span_crosses),
{
    let s: i64 = match sim {
        Some(v) => {
            if v > 1_000_000 {
                0
            } else if v < 0 {
                1_000_000
            } else {
                1_000_000 - v
            }
        },
        None => 500_000,
    };
    if span_crosses {
        s
    } else {
        2 * s
    }
}

/// The strength of the boundary behind shot `i`; what is not known of it counts as unknown
/// likeness and no speech.
pub open spec fn strength_at(sims: Seq<Option<i64>>, crossing: Seq<bool>, i: int) -> int {
    strength(
        if 0 <= i < sims.len() {
            sims[i]
        } else {
            None
        },
        0 <= i < crossing.len() && crossing[i],
    )
}

/// How long shots `a` up to, but not with, `b` last.
pub open spec fn length(shots: Seq<(i128, i128)>, s: (int, int)) -> int {
    shots[s.1 - 1].1 - shots[s.0].0
}

/// The boundary behind a scene is weak.
pub open spec fn weak(sims: Seq<Option<i64>>, crossing: Seq<bool>, s: (int, int)) -> bool {
    strength_at(sims, crossing, s.1 - 1) < 1_000_000
}

/// A scene is too short.
pub open spec fn short(shots: Seq<(i128, i128)>, s: (int, int)) -> bool {
    length(shots, s) < MIN_SCENE_NANOS
}

/// Scenes with scene `i` and the one behind it made one.
pub open spec fn merged_at(scenes: Seq<(int, int)>, i: int) -> Seq<(int, int)> {
    scenes.take(i).push((scenes[i].0, scenes[i + 1].1)) + scenes.skip(i + 2)
}

/// Scene `i` and the one behind it are to be made one: the boundary is weak or both are too short,
/// and together they are not too long.
pub open spec fn merges(
    shots: Seq<(i128, i128)>,
    sims: Seq<Option<i64>>,
    crossing: Seq<bool>,
    scenes: Seq<(int, int)>,
    i: int,
) -> bool {
    &&& weak(sims, crossing, scenes[i]) || (short(shots, scenes[i]) && short(shots, scenes[i + 1]))
    &&& length(shots, (scenes[i].0, scenes[i + 1].1)) <= MAX_SCENE_NANOS
}

/// The scenes after one pass of merging from scene `i` on.
pub open spec fn pass(
    shots: Seq<(i128, i128)>,
    sims: Seq<Option<i64>>,
    crossing: Seq<bool>,
    scenes: Seq<(int, int)>,
    i: int,
) -> Seq<(int, int)>
    decreases scenes.len() - i,
{
    if i < 0 || i + 1 >= scenes.len() {
        scenes
    } else if merges(shots, sims, crossing, scenes, i) {
        pass(shots, sims, crossing, merged_at(scenes, i), i)
    } else {
        pass(shots, sims, crossing, scenes, i + 1)
    }
}

/// A pass makes no more scenes.
pub proof fn lemma_pass_len(
    shots: Seq<(i128, i128)>,
    sims: Seq<Option<i64>>,
    crossing: Seq<bool>,
    scenes: Seq<(int, int)>,
    i: int,
)
    ensures
        pass(shots, sims, crossing, scenes, i).len() <= scenes.len(),
    decreases scenes.len() - i,
{
    if 0 <= i && i + 1 < scenes.len() {
        if merges(shots, sims, crossing, scenes, i) {
            lemma_pass_len(shots, sims, crossing, merged_at(scenes, i), i);
        } else {
            lemma_pass_len(shots, sims, crossing, scenes, i + 1);
        }
    }
}

/// The scenes after passes of merging until one changes nothing.
pub open spec fn passes(
    shots: Seq<(i128, i128)>,
    sims: Seq<Option<i64>>,
    crossing: Seq<bool>,
    scenes: Seq<(int, int)>,
) -> Seq<(int, int)>
    decreases scenes.len(),
{
    let p = pass(shots, sims, crossing, scenes, 0);
    if p.len() < scenes.len() {
        passes(shots, sims, crossing, p)
    } else {
        p
    }
}

/// A short scene joins the neighbour before it: there is one, and the break to it is no stronger
/// than that to the neighbour behind it.
pub open spec fn joins_left(
    sims: Seq<Option<i64>>,
    crossing: Seq<bool>,
    scenes: Seq<(int, int)>,
    i: int,
) -> bool {
    i > 0 && (i + 1 >= scenes.len() || strength_at(sims, crossing, scenes[i].0 - 1) <= strength_at(
        sims,
        crossing,
        scenes[i].1 - 1,
    ))
}

/// The scenes after short ones from scene `i` on have joined a neighbour.
pub open spec fn joined(
    shots: Seq<(i128, i128)>,
    sims: Seq<Option<i64>>,
    crossing: Seq<bool>,
    scenes: Seq<(int, int)>,
    i: int,
) -> Seq<(int, int)>
    decreases scenes.len() - i,
{
    if i < 0 || scenes.len() <= 1 || i >= scenes.len() {
        scenes
    } else if short(shots, scenes[i]) {
        if joins_left(sims, crossing, scenes, i) {
            joined(shots, sims, crossing, merged_at(scenes, i - 1), i)
        } else {
            joined(shots, sims, crossing, merged_at(scenes, i), i)
        }
    } else {
        joined(shots, sims, crossing, scenes, i + 1)
    }
}

/// One scene for each shot.
pub open spec fn singles(n: int) -> Seq<(int, int)> {
    Seq::new(n as nat, |i: int| (i, i + 1))
}

/// Shots grouped into scenes.
pub open spec fn grouped(
    shots: Seq<(i128, i128)>,
    sims: Seq<Option<i64>>,
    crossing: Seq<bool>,
) -> Seq<(int, int)> {
    joined(shots, sims, crossing, passes(shots, sims, crossing, singles(shots.len() as int)), 0)
}

/// Scenes follow each other without a gap, from the first shot to the last, each with a shot.
pub open spec fn covers(scenes: Seq<(int, int)>, n: int) -> bool {
    &&& scenes.len() > 0
    &&& scenes[0].0 == 0
    &&& scenes.last().1 == n
    &&& forall|i: int| 0 <= i < scenes.len() ==> (#[trigger] scenes[i]).0 < scenes[i].1
    &&& forall|i: int, j: int|
        0 <= i && j == i + 1 && j < scenes.len() ==> (#[trigger] scenes[i]).1 == (
        #[trigger] scenes[j]).0
    &&& forall|i: int| 0 <= i < scenes.len() ==> 0 <= (#[trigger] scenes[i]).0 && scenes[i].1 <= n
}

proof fn lemma_merged_covers(scenes: Seq<(int, int)>, n: int, i: int)
    requires
        covers(scenes, n),
        0 <= i,
        i + 1 < scenes.len(),
    ensures
        covers(merged_at(scenes, i), n),
        merged_at(scenes, i).len() == scenes.len() - 1,
        forall|k: int| 0 <= k < i ==> #[trigger] merged_at(scenes, i)[k] == scenes[k],
        merged_at(scenes, i)[i] == (scenes[i].0, scenes[i + 1].1),
        forall|k: int|
            i < k < scenes.len() - 1 ==> #[trigger] merged_at(scenes, i)[k] == scenes[k + 1],
{
    let m = merged_at(scenes, i);
    assert(scenes[i].1 == scenes[i + 1].0);
    assert(scenes[i].0 < scenes[i].1 && scenes[i + 1].0 < scenes[i + 1].1);
    assert forall|k: int, j: int| 0 <= k && j == k + 1 && j < m.len() implies (
    #[trigger] m[k]).1 == (#[trigger] m[j]).0 by {
        if k < i - 1 {
            assert(m[k] == scenes[k] && m[j] == scenes[j]);
        } else if k == i - 1 {
            assert(m[k] == scenes[k]);
            assert(scenes[k].1 == scenes[j].0);
        } else if k == i {
            assert(m[j] == scenes[i + 2]);
            assert(scenes[i + 1].1 == scenes[i + 2].0);
        } else {
            assert(m[k] == scenes[j] && m[j] == scenes[k + 2]);
            assert(scenes[j].1 == scenes[k + 2].0);
        }
    }
    assert forall|k: int| 0 <= k < m.len() implies (#[trigger] m[k]).0 < m[k].1 && 0 <= m[k].0
        && m[k].1 <= n by {
        if k < i {
            assert(m[k] == scenes[k]);
        } else if k > i {
            assert(m[k] == scenes[k + 1]);
        }
    }
}

proof fn lemma_pass_covers(
    shots: Seq<(i128, i128)>,
    sims: Seq<Option<i64>>,
    crossing: Seq<bool>,
    scenes: Seq<(int, int)>,
    i: int,
)
    requires
        covers(scenes, shots.len() as int),
        0 <= i,
    ensures
        covers(pass(shots, sims, crossing, scenes, i), shots.len() as int),
    decreases scenes.len() - i,
{
    if i + 1 < scenes.len() {
        if merges(shots, sims, crossing, scenes, i) {
            lemma_merged_covers(scenes, shots.len() as int, i);
            lemma_pass_covers(shots, sims, crossing, merged_at(scenes, i), i);
        } else {
            lemma_pass_covers(shots, sims, crossing, scenes, i + 1);
        }
    }
}

proof fn lemma_passes_covers(
    shots: Seq<(i128, i128)>,
    sims: Seq<Option<i64>>,
    crossing: Seq<bool>,
    scenes: Seq<(int, int)>,
)
    requires
        covers(scenes, shots.len() as int),
    ensures
        covers(passes(shots, sims, crossing, scenes), shots.len() as int),
    decreases scenes.len(),
{
    lemma_pass_covers(shots, sims, crossing, scenes, 0);
    let p = pass(shots, sims, crossing, scenes, 0);
    if p.len() < scenes.len() {
        lemma_passes_covers(shots, sims, crossing, p);
    }
}

proof fn lemma_joined_covers(
    shots: Seq<(i128, i128)>,
    sims: Seq<Option<i64>>,
    crossing: Seq<bool>,
    scenes: Seq<(int, int)>,
    i: int,
)
    requires
        covers(scenes, shots.len() as int),
        0 <= i,
    ensures
        covers(joined(shots, sims, crossing, scenes, i), shots.len() as int),
    decreases scenes.len() - i,
{
    if scenes.len() > 1 && i < scenes.len() {
        if short(shots, scenes[i]) {
            if joins_left(sims, crossing, scenes, i) {
                lemma_merged_covers(scenes, shots.len() as int, i - 1);
                lemma_joined_covers(shots, sims, crossing, merged_at(scenes, i - 1), i);
            } else {
                lemma_merged_covers(scenes, shots.len() as int, i);
                lemma_joined_covers(shots, sims, crossing, merged_at(scenes, i), i);
            }
        } else {
            lemma_joined_covers(shots, sims, crossing, scenes, i + 1);
        }
    }
}

/// Scenes leave no gap: they follow each other from the first shot to the last.
pub proof fn law_scenes_leave_no_gap(
    shots: Seq<(i128, i128)>,
    sims: Seq<Option<i64>>,
    crossing: Seq<bool>,
)
    requires
        shots.len() > 0,
    ensures
        covers(grouped(shots, sims, crossing), shots.len() as int),
{
    let s = singles(shots.len() as int);
    assert(covers(s, shots.len() as int));
    lemma_passes_covers(shots, sims, crossing, s);
    lemma_joined_covers(shots, sims, crossing, passes(shots, sims, crossing, s), 0);
}

/// Shots are in order: none starts before, or ends before, an earlier one.
pub open spec fn in_order(shots: Seq<(i128, i128)>) -> bool {
    forall|i: int, j: int|
        0 <= i <= j < shots.len() ==> (#[trigger] shots[i]).0 <= (#[trigger] shots[j]).0
            && shots[i].1 <= shots[j].1
}

/// Scenes before `i` are long enough.
spec fn long_before(shots: Seq<(i128, i128)>, scenes: Seq<(int, int)>, i: int) -> bool {
    forall|k: int| 0 <= k < i && k < scenes.len() ==> !short(shots, #[trigger] scenes[k])
}

proof fn lemma_joined_long(
    shots: Seq<(i128, i128)>,
    sims: Seq<Option<i64>>,
    crossing: Seq<bool>,
    scenes: Seq<(int, int)>,
    i: int,
)
    requires
        covers(scenes, shots.len() as int),
        in_order(shots),
        0 <= i,
        long_before(shots, scenes, i),
    ensures
        ({
            let r = joined(shots, sims, crossing, scenes, i);
            r.len() > 1 ==> long_before(shots, r, r.len() as int)
        }),
    decreases scenes.len() - i,
{
    let n = shots.len() as int;
    if scenes.len() > 1 && i < scenes.len() {
        if short(shots, scenes[i]) {
            if joins_left(sims, crossing, scenes, i) {
                let m = merged_at(scenes, i - 1);
                lemma_merged_covers(scenes, n, i - 1);
                assert forall|k: int| 0 <= k < i && k < m.len() implies !short(
                    shots,
                    #[trigger] m[k],
                ) by {
                    if k < i - 1 {
                        assert(m[k] == scenes[k]);
                    } else {
                        let s = scenes[i - 1];
                        assert(!short(shots, s));
                        assert(scenes[i].0 < scenes[i].1 && scenes[i].1 <= n);
                        assert(s.0 < s.1 && 0 <= s.0);
                        assert(s.1 == scenes[i].0);
                        assert(shots[s.1 - 1].1 <= shots[scenes[i].1 - 1].1);
                    }
                }
                lemma_joined_long(shots, sims, crossing, m, i);
            } else {
                let m = merged_at(scenes, i);
                lemma_merged_covers(scenes, n, i);
                assert forall|k: int| 0 <= k < i && k < m.len() implies !short(
                    shots,
                    #[trigger] m[k],
                ) by {
                    assert(m[k] == scenes[k]);
                }
                lemma_joined_long(shots, sims, crossing, m, i);
            }
        } else {
            lemma_joined_long(shots, sims, crossing, scenes, i + 1);
        }
    }
}

/// No scene is too short, unless it is the only one.
pub proof fn law_no_scene_is_short(
    shots: Seq<(i128, i128)>,
    sims: Seq<Option<i64>>,
    crossing: Seq<bool>,
    k: int,
)
    requires
        in_order(shots),
        grouped(shots, sims, crossing).len() > 1,
        0 <= k < grouped(shots, sims, crossing).len(),
    ensures
        length(shots, grouped(shots, sims, crossing)[k]) >= MIN_SCENE_NANOS,
{
    let s = singles(shots.len() as int);
    if shots.len() > 0 {
        assert(covers(s, shots.len() as int));
        lemma_passes_covers(shots, sims, crossing, s);
        lemma_joined_long(shots, sims, crossing, passes(shots, sims, crossing, s), 0);
    } else {
        lemma_no_shots(shots, sims, crossing, s);
    }
}

proof fn lemma_no_shots(
    shots: Seq<(i128, i128)>,
    sims: Seq<Option<i64>>,
    crossing: Seq<bool>,
    s: Seq<(int, int)>,
)
    requires
        s.len() == 0,
    ensures
        joined(shots, sims, crossing, passes(shots, sims, crossing, s), 0).len() == 0,
{
    lemma_pass_len(shots, sims, crossing, s, 0);
}

/// Scenes of more than one shot are not too long.
spec fn merged_fit(shots: Seq<(i128, i128)>, scenes: Seq<(int, int)>) -> bool {
    forall|k: int|
        0 <= k < scenes.len() && (#[trigger] scenes[k]).1 - scenes[k].0 > 1 ==> length(
            shots,
            scenes[k],
        ) <= MAX_SCENE_NANOS
}

proof fn lemma_pass_fits(
    shots: Seq<(i128, i128)>,
    sims: Seq<Option<i64>>,
    crossing: Seq<bool>,
    scenes: Seq<(int, int)>,
    i: int,
)
    requires
        covers(scenes, shots.len() as int),
        merged_fit(shots, scenes),
        0 <= i,
    ensures
        merged_fit(shots, pass(shots, sims, crossing, scenes, i)),
    decreases scenes.len() - i,
{
    if i + 1 < scenes.len() {
        if merges(shots, sims, crossing, scenes, i) {
            let m = merged_at(scenes, i);
            lemma_merged_covers(scenes, shots.len() as int, i);
            assert forall|k: int|
                0 <= k < m.len() && (#[trigger] m[k]).1 - m[k].0 > 1 implies length(shots, m[k])
                <= MAX_SCENE_NANOS by {
                if k < i {
                    assert(m[k] == scenes[k]);
                } else if k > i {
                    assert(m[k] == scenes[k + 1]);
                }
            }
            lemma_pass_fits(shots, sims, crossing, m, i);
        } else {
            lemma_pass_fits(shots, sims, crossing, scenes, i + 1);
        }
    }
}

/// Merging by likeness or speech never makes a scene too long: after the passes, a scene of
/// several shots is within the limit.
pub proof fn law_merged_scenes_fit(
    shots: Seq<(i128, i128)>,
    sims: Seq<Option<i64>>,
    crossing: Seq<bool>,
    scenes: Seq<(int, int)>,
)
    requires
        covers(scenes, shots.len() as int),
        forall|k: int| 0 <= k < scenes.len() ==> (#[trigger] scenes[k]).1 - scenes[k].0 == 1,
    ensures
        forall|k: int|
            0 <= k < passes(shots, sims, crossing, scenes).len() && (#[trigger] passes(
                shots,
                sims,
                crossing,
                scenes,
            )[k]).1 - passes(shots, sims, crossing, scenes)[k].0 > 1 ==> length(
                shots,
                passes(shots, sims, crossing, scenes)[k],
            ) <= MAX_SCENE_NANOS,
{
    lemma_passes_fit(shots, sims, crossing, scenes);
}

proof fn lemma_passes_fit(
    shots: Seq<(i128, i128)>,
    sims: Seq<Option<i64>>,
    crossing: Seq<bool>,
    scenes: Seq<(int, int)>,
)
    requires
        covers(scenes, shots.len() as int),
        merged_fit(shots, scenes),
    ensures
        merged_fit(shots, passes(shots, sims, crossing, scenes)),
    decreases scenes.len(),
{
    lemma_pass_covers(shots, sims, crossing, scenes, 0);
    lemma_pass_fits(shots, sims, crossing, scenes, 0);
    let p = pass(shots, sims, crossing, scenes, 0);
    if p.len() < scenes.len() {
        lemma_passes_fit(shots, sims, crossing, p);
    }
}

/// Each shot starts where the one before it ends.
pub open spec fn abut(shots: Seq<(i128, i128)>) -> bool {
    forall|i: int| 0 <= i < shots.len() - 1 ==> (#[trigger] shots[i]).1 == shots[i + 1].0
}

/// Scenes of more than one shot are shorter than two of the shortest.
pub open spec fn barely_long(shots: Seq<(i128, i128)>, scenes: Seq<(int, int)>) -> bool {
    forall|k: int|
        0 <= k < scenes.len() && (#[trigger] scenes[k]).1 - scenes[k].0 > 1 ==> length(
            shots,
            scenes[k],
        ) < 2 * MIN_SCENE_NANOS
}

/// No boundary between shots is weak.
pub open spec fn all_strong(n: int, sims: Seq<Option<i64>>, crossing: Seq<bool>) -> bool {
    forall|i: int| 0 <= i < n ==> #[trigger] strength_at(sims, crossing, i) >= 1_000_000
}

proof fn lemma_pass_barely(
    shots: Seq<(i128, i128)>,
    sims: Seq<Option<i64>>,
    crossing: Seq<bool>,
    scenes: Seq<(int, int)>,
    i: int,
)
    requires
        covers(scenes, shots.len() as int),
        abut(shots),
        all_strong(shots.len() as int, sims, crossing),
        barely_long(shots, scenes),
        0 <= i,
    ensures
        barely_long(shots, pass(shots, sims, crossing, scenes, i)),
    decreases scenes.len() - i,
{
    if i + 1 < scenes.len() {
        if merges(shots, sims, crossing, scenes, i) {
            let m = merged_at(scenes, i);
            let n = shots.len() as int;
            lemma_merged_covers(scenes, n, i);
            assert(scenes[i].0 < scenes[i].1 && 0 <= scenes[i].0 && scenes[i].1 <= n);
            assert(scenes[i + 1].0 < scenes[i + 1].1 && scenes[i + 1].1 <= n);
            assert(scenes[i].1 == scenes[i + 1].0);
            assert(strength_at(sims, crossing, scenes[i].1 - 1) >= 1_000_000);
            assert(shots[scenes[i].1 - 1].1 == shots[scenes[i].1].0);
            assert(length(shots, m[i]) < 2 * MIN_SCENE_NANOS);
            assert forall|k: int|
                0 <= k < m.len() && (#[trigger] m[k]).1 - m[k].0 > 1 implies length(shots, m[k]) < 2
                * MIN_SCENE_NANOS by {
                if k < i {
                    assert(m[k] == scenes[k]);
                } else if k > i {
                    assert(m[k] == scenes[k + 1]);
                }
            }
            lemma_pass_barely(shots, sims, crossing, m, i);
        } else {
            lemma_pass_barely(shots, sims, crossing, scenes, i + 1);
        }
    }
}

/// Across strong boundaries shots merge only up to the minimum length: where every boundary is
/// strong and shots follow each other without a gap, merging stops before a scene reaches twice
/// that length.
pub proof fn law_strong_boundaries_hold(
    shots: Seq<(i128, i128)>,
    sims: Seq<Option<i64>>,
    crossing: Seq<bool>,
    scenes: Seq<(int, int)>,
)
    requires
        covers(scenes, shots.len() as int),
        abut(shots),
        all_strong(shots.len() as int, sims, crossing),
        barely_long(shots, scenes),
    ensures
        barely_long(shots, passes(shots, sims, crossing, scenes)),
    decreases scenes.len(),
{
    lemma_pass_covers(shots, sims, crossing, scenes, 0);
    lemma_pass_barely(shots, sims, crossing, scenes, 0);
    let p = pass(shots, sims, crossing, scenes, 0);
    if p.len() < scenes.len() {
        law_strong_boundaries_hold(shots, sims, crossing, p);
    }
}

/// The shots on either side of the boundary behind shot `b` belong together: they look more alike
/// than not, or speech crosses from one to the other and they look alike at all; where it is not
/// known how they look, speech decides.
pub open spec fn runs_on(sims: Seq<Option<i64>>, crossing: Seq<bool>, b: int) -> bool {
    let spoken_across = 0 <= b < crossing.len() && crossing[b];
    if 0 <= b < sims.len() && sims[b] is Some {
        sims[b]->0 > 500_000 || (sims[b]->0 > 0 && spoken_across)
    } else {
        spoken_across
    }
}

proof fn lemma_weak_runs_on(sims: Seq<Option<i64>>, crossing: Seq<bool>, b: int)
    ensures
        strength_at(sims, crossing, b) < 1_000_000 <==> runs_on(sims, crossing, b),
{
}

/// A break is the weaker the more alike the shots look, no break is stronger for speech that
/// crosses it, and speech halves it.
pub proof fn law_likeness_and_speech_weaken(a: i64, b: i64, crosses: bool)
    requires
        a <= b,
    ensures
        strength(Some(b), crosses) <= strength(Some(a), crosses),
        0 <= a < b <= 1_000_000 ==> strength(Some(b), crosses) < strength(Some(a), crosses),
        2 * strength(Some(a), true) == strength(Some(a), false),
        2 * strength(None, true) == strength(None, false),
        strength(None, crosses) == strength(Some(500_000), crosses),
        strength(Some(1_000_000), crosses) == 0,
        strength(Some(0), false) == 2_000_000,
{
}

/// Speech across a boundary keeps two shots together: two neighbouring shots that last three
/// minutes or less together, look alike at all, and across whose boundary speech runs are one
/// scene.
pub proof fn law_speech_keeps_shots_together(
    shots: Seq<(i128, i128)>,
    sims: Seq<Option<i64>>,
    crossing: Seq<bool>,
    v: i64,
)
    requires
        shots.len() == 2,
        sims.len() > 0,
        sims[0] == Some(v),
        0 < v,
        crossing.len() > 0,
        crossing[0],
        shots[1].1 - shots[0].0 <= 180_000_000_000,
    ensures
        grouped(shots, sims, crossing) == seq![(0int, 2int)],
{
    lemma_two_shots(shots, sims, crossing);
}

/// Likeness keeps two shots together, whatever is said: two neighbouring shots that last three
/// minutes or less together and look more alike than not are one scene.
pub proof fn law_likeness_keeps_shots_together(
    shots: Seq<(i128, i128)>,
    sims: Seq<Option<i64>>,
    crossing: Seq<bool>,
    v: i64,
)
    requires
        shots.len() == 2,
        sims.len() > 0,
        sims[0] == Some(v),
        500_000 < v,
        shots[1].1 - shots[0].0 <= 180_000_000_000,
    ensures
        grouped(shots, sims, crossing) == seq![(0int, 2int)],
{
    lemma_two_shots(shots, sims, crossing);
}

/// Two shots of twenty seconds or more that look no more alike than not, with no speech across
/// their boundary, are two scenes.
pub proof fn law_unlike_shots_part(
    shots: Seq<(i128, i128)>,
    sims: Seq<Option<i64>>,
    crossing: Seq<bool>,
)
    requires
        shots.len() == 2,
        sims.len() > 0 ==> (sims[0] matches Some(v) ==> v <= 500_000),
        crossing.len() > 0 ==> !crossing[0],
        shots[0].1 - shots[0].0 >= 20_000_000_000,
        shots[1].1 - shots[1].0 >= 20_000_000_000,
    ensures
        grouped(shots, sims, crossing) == seq![(0int, 1int), (1int, 2int)],
{
    lemma_two_shots(shots, sims, crossing);
}

proof fn lemma_two_shots(shots: Seq<(i128, i128)>, sims: Seq<Option<i64>>, crossing: Seq<bool>)
    requires
        shots.len() == 2,
    ensures
        runs_on(sims, crossing, 0) && shots[1].1 - shots[0].0 <= 180_000_000_000 ==> grouped(
            shots,
            sims,
            crossing,
        ) == seq![(0int, 2int)],
        !runs_on(sims, crossing, 0) && shots[0].1 - shots[0].0 >= 20_000_000_000 && shots[1].1
            - shots[1].0 >= 20_000_000_000 ==> grouped(shots, sims, crossing) == seq![
            (0int, 1int),
            (1int, 2int),
        ],
{
    lemma_weak_runs_on(sims, crossing, 0);
    let s = singles(2);
    let m = merged_at(s, 0);
    assert(s =~= seq![(0int, 1int), (1int, 2int)]);
    assert(m =~= seq![(0int, 2int)]);
    reveal_with_fuel(pass, 3);
    reveal_with_fuel(passes, 3);
    reveal_with_fuel(joined, 4);
    assert(pass(shots, sims, crossing, m, 0) == m);
    assert(passes(shots, sims, crossing, m) == m);
}

/// A short shot between two long ones, with clean breaks on both sides, joins the one that it
/// looks more like; the one before it where both look as alike.
pub proof fn law_short_shots_join_the_liker(
    shots: Seq<(i128, i128)>,
    sims: Seq<Option<i64>>,
    crossing: Seq<bool>,
    u: i64,
    v: i64,
)
    requires
        shots.len() == 3,
        in_order(shots),
        shots[0].1 - shots[0].0 >= 20_000_000_000,
        shots[1].1 - shots[1].0 < 20_000_000_000,
        shots[2].1 - shots[2].0 >= 20_000_000_000,
        sims.len() > 1,
        sims[0] == Some(u),
        sims[1] == Some(v),
        0 <= u <= 500_000,
        0 <= v <= 500_000,
        forall|i: int| 0 <= i < crossing.len() ==> !#[trigger] crossing[i],
    ensures
        grouped(shots, sims, crossing) == (if u >= v {
            seq![(0int, 2int), (2int, 3int)]
        } else {
            seq![(0int, 1int), (1int, 3int)]
        }),
{
    lemma_weak_runs_on(sims, crossing, 0);
    lemma_weak_runs_on(sims, crossing, 1);
    let s = singles(3);
    assert(s =~= seq![(0int, 1int), (1int, 2int), (2int, 3int)]);
    assert(merged_at(s, 0) =~= seq![(0int, 2int), (2int, 3int)]);
    assert(merged_at(s, 1) =~= seq![(0int, 1int), (1int, 3int)]);
    reveal_with_fuel(pass, 4);
    reveal_with_fuel(passes, 2);
    reveal_with_fuel(joined, 5);
    assert(pass(shots, sims, crossing, s, 0) == s);
    assert(shots[1].0 <= shots[2].0);
}

/// Neighbouring scenes that belong together, or are both short, would be too long as one.
pub open spec fn held_apart(
    shots: Seq<(i128, i128)>,
    sims: Seq<Option<i64>>,
    crossing: Seq<bool>,
    scenes: Seq<(int, int)>,
) -> bool {
    forall|k: int|
        0 <= k < scenes.len() - 1 && runs_on(sims, crossing, (#[trigger] scenes[k]).1 - 1)
            ==> shots[scenes[k + 1].1 - 1].1 - shots[scenes[k].0].0 > 180_000_000_000
}

proof fn lemma_pass_is_done(
    shots: Seq<(i128, i128)>,
    sims: Seq<Option<i64>>,
    crossing: Seq<bool>,
    scenes: Seq<(int, int)>,
    i: int,
)
    requires
        0 <= i,
        pass(shots, sims, crossing, scenes, i).len() >= scenes.len(),
    ensures
        pass(shots, sims, crossing, scenes, i) == scenes,
        forall|k: int|
            i <= k < scenes.len() - 1 ==> !#[trigger] merges(shots, sims, crossing, scenes, k),
    decreases scenes.len() - i,
{
    if i + 1 < scenes.len() {
        if merges(shots, sims, crossing, scenes, i) {
            lemma_pass_len(shots, sims, crossing, merged_at(scenes, i), i);
            assert(merged_at(scenes, i).len() == scenes.len() - 1);
        } else {
            lemma_pass_is_done(shots, sims, crossing, scenes, i + 1);
        }
    }
}

proof fn lemma_passes_hold_apart(
    shots: Seq<(i128, i128)>,
    sims: Seq<Option<i64>>,
    crossing: Seq<bool>,
    scenes: Seq<(int, int)>,
)
    ensures
        held_apart(shots, sims, crossing, passes(shots, sims, crossing, scenes)),
        forall|k: int|
            0 <= k < passes(shots, sims, crossing, scenes).len() - 1 ==> !#[trigger] merges(
                shots,
                sims,
                crossing,
                passes(shots, sims, crossing, scenes),
                k,
            ),
    decreases scenes.len(),
{
    let p = pass(shots, sims, crossing, scenes, 0);
    if p.len() < scenes.len() {
        lemma_passes_hold_apart(shots, sims, crossing, p);
    } else {
        lemma_pass_is_done(shots, sims, crossing, scenes, 0);
        assert forall|k: int|
            0 <= k < p.len() - 1 && runs_on(sims, crossing, (#[trigger] p[k]).1 - 1) implies shots[p[k
            + 1].1 - 1].1 - shots[p[k].0].0 > 180_000_000_000 by {
            lemma_weak_runs_on(sims, crossing, p[k].1 - 1);
            assert(!merges(shots, sims, crossing, p, k));
        }
    }
}

/// Merging stops only where it must: after the passes, two neighbouring scenes that belong
/// together, or that each last less than twenty seconds, would last more than three minutes as
/// one.
pub proof fn law_merging_is_complete(
    shots: Seq<(i128, i128)>,
    sims: Seq<Option<i64>>,
    crossing: Seq<bool>,
    scenes: Seq<(int, int)>,
    k: int,
)
    requires
        0 <= k < passes(shots, sims, crossing, scenes).len() - 1,
    ensures
        ({
            let (a, b) = passes(shots, sims, crossing, scenes)[k];
            let (c, d) = passes(shots, sims, crossing, scenes)[k + 1];
            runs_on(sims, crossing, b - 1) || (shots[b - 1].1 - shots[a].0 < 20_000_000_000
                && shots[d - 1].1 - shots[c].0 < 20_000_000_000) ==> shots[d - 1].1 - shots[a].0
                > 180_000_000_000
        }),
{
    lemma_passes_hold_apart(shots, sims, crossing, scenes);
    let p = passes(shots, sims, crossing, scenes);
    assert(!merges(shots, sims, crossing, p, k));
    lemma_weak_runs_on(sims, crossing, p[k].1 - 1);
}

proof fn lemma_merged_apart(
    shots: Seq<(i128, i128)>,
    sims: Seq<Option<i64>>,
    crossing: Seq<bool>,
    scenes: Seq<(int, int)>,
    i: int,
)
    requires
        covers(scenes, shots.len() as int),
        in_order(shots),
        held_apart(shots, sims, crossing, scenes),
        0 <= i,
        i + 1 < scenes.len(),
    ensures
        held_apart(shots, sims, crossing, merged_at(scenes, i)),
{
    let n = shots.len() as int;
    let m = merged_at(scenes, i);
    lemma_merged_covers(scenes, n, i);
    assert forall|k: int|
        0 <= k < m.len() - 1 && runs_on(sims, crossing, (#[trigger] m[k]).1 - 1) implies shots[m[k
        + 1].1 - 1].1 - shots[m[k].0].0 > 180_000_000_000 by {
        let k2 = if k < i {
            k
        } else {
            k + 1
        };
        assert(m[k].1 == scenes[k2].1);
        assert(runs_on(sims, crossing, scenes[k2].1 - 1));
        assert(shots[scenes[k2 + 1].1 - 1].1 - shots[scenes[k2].0].0 > 180_000_000_000);
        assert(scenes[k2].0 < scenes[k2].1 && scenes[k2].1 <= n && 0 <= scenes[k2].0);
        assert(scenes[k2 + 1].0 < scenes[k2 + 1].1 && scenes[k2 + 1].1 <= n);
        assert(m[k].0 < m[k].1 && 0 <= m[k].0);
        assert(m[k + 1].0 < m[k + 1].1 && m[k + 1].1 <= n);
        if k == i {
            assert(scenes[i].0 < scenes[i].1 && scenes[i].1 == scenes[i + 1].0);
            assert(shots[m[k].0].0 <= shots[scenes[k2].0].0);
        }
        if k + 1 == i {
            assert(scenes[i].0 < scenes[i].1 && scenes[i].1 == scenes[i + 1].0);
            assert(scenes[i + 1].0 < scenes[i + 1].1 && scenes[i + 1].1 <= n);
            assert(shots[scenes[k2 + 1].1 - 1].1 <= shots[m[k + 1].1 - 1].1);
        }
    }
}

proof fn lemma_joined_apart(
    shots: Seq<(i128, i128)>,
    sims: Seq<Option<i64>>,
    crossing: Seq<bool>,
    scenes: Seq<(int, int)>,
    i: int,
)
    requires
        covers(scenes, shots.len() as int),
        in_order(shots),
        held_apart(shots, sims, crossing, scenes),
        0 <= i,
    ensures
        held_apart(shots, sims, crossing, joined(shots, sims, crossing, scenes, i)),
    decreases scenes.len() - i,
{
    let n = shots.len() as int;
    if scenes.len() > 1 && i < scenes.len() {
        if short(shots, scenes[i]) {
            if joins_left(sims, crossing, scenes, i) {
                lemma_merged_covers(scenes, n, i - 1);
                lemma_merged_apart(shots, sims, crossing, scenes, i - 1);
                lemma_joined_apart(shots, sims, crossing, merged_at(scenes, i - 1), i);
            } else {
                lemma_merged_covers(scenes, n, i);
                lemma_merged_apart(shots, sims, crossing, scenes, i);
                lemma_joined_apart(shots, sims, crossing, merged_at(scenes, i), i);
            }
        } else {
            lemma_joined_apart(shots, sims, crossing, scenes, i + 1);
        }
    }
}

/// Scenes end between shots that belong together only for length: where the last shot of a scene
/// and the first of the next look more alike than not, or speech crosses between them and they
/// look alike at all, the two scenes would last more than three minutes as one.
pub proof fn law_scenes_part_for_a_reason(
    shots: Seq<(i128, i128)>,
    sims: Seq<Option<i64>>,
    crossing: Seq<bool>,
    k: int,
)
    requires
        in_order(shots),
        0 <= k < grouped(shots, sims, crossing).len() - 1,
        runs_on(sims, crossing, grouped(shots, sims, crossing)[k].1 - 1),
    ensures
        shots[grouped(shots, sims, crossing)[k + 1].1 - 1].1 - shots[grouped(
            shots,
            sims,
            crossing,
        )[k].0].0 > 180_000_000_000,
{
    let s = singles(shots.len() as int);
    if shots.len() > 0 {
        assert(covers(s, shots.len() as int));
        lemma_passes_covers(shots, sims, crossing, s);
        lemma_passes_hold_apart(shots, sims, crossing, s);
        lemma_joined_apart(shots, sims, crossing, passes(shots, sims, crossing, s), 0);
    } else {
        lemma_no_shots(shots, sims, crossing, s);
    }
}

/// A shot lasts less than twenty seconds.
pub open spec fn brief(shots: Seq<(i128, i128)>, i: int) -> bool {
    shots[i].1 - shots[i].0 < 20_000_000_000
}

/// Within scenes, shots belong together, or are brief on both sides of a boundary; on one side,
/// where that is enough.
pub open spec fn held_together(
    shots: Seq<(i128, i128)>,
    sims: Seq<Option<i64>>,
    crossing: Seq<bool>,
    scenes: Seq<(int, int)>,
    one_side: bool,
) -> bool {
    forall|k: int, b: int|
        0 <= k < scenes.len() && (#[trigger] scenes[k]).0 <= b && b + 1 < scenes[k].1
            ==> #[trigger] runs_on(sims, crossing, b) || (brief(shots, b) && brief(shots, b + 1))
            || (one_side && (brief(shots, b) || brief(shots, b + 1)))
}

proof fn lemma_merged_together(
    shots: Seq<(i128, i128)>,
    sims: Seq<Option<i64>>,
    crossing: Seq<bool>,
    scenes: Seq<(int, int)>,
    i: int,
    one_side: bool,
)
    requires
        covers(scenes, shots.len() as int),
        in_order(shots),
        held_together(shots, sims, crossing, scenes, one_side),
        0 <= i,
        i + 1 < scenes.len(),
        weak(sims, crossing, scenes[i]) || (short(shots, scenes[i]) && short(
            shots,
            scenes[i + 1],
        )) || (one_side && (short(shots, scenes[i]) || short(shots, scenes[i + 1]))),
    ensures
        held_together(shots, sims, crossing, merged_at(scenes, i), one_side),
{
    let n = shots.len() as int;
    let m = merged_at(scenes, i);
    lemma_merged_covers(scenes, n, i);
    assert(scenes[i].1 == scenes[i + 1].0);
    assert(scenes[i].0 < scenes[i].1 && 0 <= scenes[i].0 && scenes[i].1 <= n);
    assert(scenes[i + 1].0 < scenes[i + 1].1 && scenes[i + 1].1 <= n);
    let c = scenes[i].1 - 1;
    lemma_weak_runs_on(sims, crossing, c);
    assert(shots[scenes[i].0].0 <= shots[c].0);
    assert(shots[c + 1].1 <= shots[scenes[i + 1].1 - 1].1);
    assert forall|k: int, b: int|
        0 <= k < m.len() && (#[trigger] m[k]).0 <= b && b + 1 < m[k].1 implies #[trigger] runs_on(
        sims,
        crossing,
        b,
    ) || (brief(shots, b) && brief(shots, b + 1)) || (one_side && (brief(shots, b) || brief(
        shots,
        b + 1,
    ))) by {
        if k < i {
            assert(m[k] == scenes[k]);
        } else if k > i {
            assert(m[k] == scenes[k + 1]);
        } else if b < c {
            assert(scenes[i].0 <= b && b + 1 < scenes[i].1);
        } else if b > c {
            assert(scenes[i + 1].0 <= b && b + 1 < scenes[i + 1].1);
        }
    }
}

proof fn lemma_pass_together(
    shots: Seq<(i128, i128)>,
    sims: Seq<Option<i64>>,
    crossing: Seq<bool>,
    scenes: Seq<(int, int)>,
    i: int,
)
    requires
        covers(scenes, shots.len() as int),
        in_order(shots),
        held_together(shots, sims, crossing, scenes, false),
        0 <= i,
    ensures
        held_together(shots, sims, crossing, pass(shots, sims, crossing, scenes, i), false),
    decreases scenes.len() - i,
{
    if i + 1 < scenes.len() {
        if merges(shots, sims, crossing, scenes, i) {
            lemma_merged_covers(scenes, shots.len() as int, i);
            lemma_merged_together(shots, sims, crossing, scenes, i, false);
            lemma_pass_together(shots, sims, crossing, merged_at(scenes, i), i);
        } else {
            lemma_pass_together(shots, sims, crossing, scenes, i + 1);
        }
    }
}

proof fn lemma_passes_together(
    shots: Seq<(i128, i128)>,
    sims: Seq<Option<i64>>,
    crossing: Seq<bool>,
    scenes: Seq<(int, int)>,
)
    requires
        covers(scenes, shots.len() as int),
        in_order(shots),
        held_together(shots, sims, crossing, scenes, false),
    ensures
        held_together(shots, sims, crossing, passes(shots, sims, crossing, scenes), false),
    decreases scenes.len(),
{
    lemma_pass_covers(shots, sims, crossing, scenes, 0);
    lemma_pass_together(shots, sims, crossing, scenes, 0);
    let p = pass(shots, sims, crossing, scenes, 0);
    if p.len() < scenes.len() {
        lemma_passes_together(shots, sims, crossing, p);
    }
}

proof fn lemma_joined_together(
    shots: Seq<(i128, i128)>,
    sims: Seq<Option<i64>>,
    crossing: Seq<bool>,
    scenes: Seq<(int, int)>,
    i: int,
)
    requires
        covers(scenes, shots.len() as int),
        in_order(shots),
        held_together(shots, sims, crossing, scenes, true),
        0 <= i,
    ensures
        held_together(shots, sims, crossing, joined(shots, sims, crossing, scenes, i), true),
    decreases scenes.len() - i,
{
    let n = shots.len() as int;
    if scenes.len() > 1 && i < scenes.len() {
        if short(shots, scenes[i]) {
            if joins_left(sims, crossing, scenes, i) {
                lemma_merged_covers(scenes, n, i - 1);
                lemma_merged_together(shots, sims, crossing, scenes, i - 1, true);
                lemma_joined_together(shots, sims, crossing, merged_at(scenes, i - 1), i);
            } else {
                lemma_merged_covers(scenes, n, i);
                lemma_merged_together(shots, sims, crossing, scenes, i, true);
                lemma_joined_together(shots, sims, crossing, merged_at(scenes, i), i);
            }
        } else {
            lemma_joined_together(shots, sims, crossing, scenes, i + 1);
        }
    }
}

/// Scenes hold only what belongs together: two neighbouring shots of twenty seconds or more are
/// in one scene only if they look more alike than not, or speech crosses from one to the other
/// and they look alike at all. Before short scenes join their neighbours, one shot of that length
/// is enough to part them.
pub proof fn law_long_shots_share_a_scene_for_a_reason(
    shots: Seq<(i128, i128)>,
    sims: Seq<Option<i64>>,
    crossing: Seq<bool>,
    k: int,
    b: int,
)
    requires
        in_order(shots),
        shots.len() > 0,
    ensures
        ({
            let g = grouped(shots, sims, crossing);
            0 <= k < g.len() && g[k].0 <= b && b + 1 < g[k].1 && shots[b].1 - shots[b].0
                >= 20_000_000_000 && shots[b + 1].1 - shots[b + 1].0 >= 20_000_000_000 ==> runs_on(
                sims,
                crossing,
                b,
            )
        }),
        ({
            let p = passes(shots, sims, crossing, singles(shots.len() as int));
            0 <= k < p.len() && p[k].0 <= b && b + 1 < p[k].1 && (shots[b].1 - shots[b].0
                >= 20_000_000_000 || shots[b + 1].1 - shots[b + 1].0 >= 20_000_000_000) ==> runs_on(
                sims,
                crossing,
                b,
            )
        }),
{
    let s = singles(shots.len() as int);
    let p = passes(shots, sims, crossing, s);
    let g = grouped(shots, sims, crossing);
    assert(covers(s, shots.len() as int));
    assert(held_together(shots, sims, crossing, s, false));
    lemma_passes_covers(shots, sims, crossing, s);
    lemma_passes_together(shots, sims, crossing, s);
    assert(held_together(shots, sims, crossing, p, true)) by {
        assert forall|k: int, b: int|
            0 <= k < p.len() && (#[trigger] p[k]).0 <= b && b + 1 < p[k].1 implies #[trigger] runs_on(
            sims,
            crossing,
            b,
        ) || (brief(shots, b) && brief(shots, b + 1)) || (true && (brief(shots, b) || brief(
            shots,
            b + 1,
        ))) by {
        }
    }
    lemma_joined_together(shots, sims, crossing, p, 0);
}

/// Index ranges as mathematics.
pub open spec fn ranges_of(s: Seq<(usize, usize)>) -> Seq<(int, int)> {
    s.map_values(|p: (usize, usize)| (p.0 as int, p.1 as int))
}

fn strength_of(sims: &Vec<Option<i64>>, crossing: &Vec<bool>, i: usize) -> (r: i64)
    ensures
        r == strength_at(sims@, crossing@, i as int),
{
    let sim: Option<i64> = if i < sims.len() {
        sims[i]
    } else {
        None
    };
    let crosses: bool = if i < crossing.len() {
        crossing[i]
    } else {
        false
    };
    boundary_strength(sim, crosses)
}

fn merge(scenes: &mut Vec<(usize, usize)>, i: usize, Ghost(n): Ghost<int>)
    requires
        i + 1 < old(scenes)@.len(),
        covers(ranges_of(old(scenes)@), n),
    ensures
        ranges_of(final(scenes)@) == merged_at(ranges_of(old(scenes)@), i as int),
        covers(ranges_of(final(scenes)@), n),
        final(scenes)@.len() == old(scenes)@.len() - 1,
{
    let ghost before = scenes@;
    let _count: usize = scenes.len();
    let end: usize = scenes[i + 1].1;
    let start: usize = scenes[i].0;
    scenes.set(i, (start, end));
    let _gone = scenes.remove(i + 1);
    proof {
        assert(ranges_of(scenes@) =~= merged_at(ranges_of(before), i as int));
        lemma_merged_covers(ranges_of(before), n, i as int);
    }
}

fn length_of(shots: &Vec<(i128, i128)>, a: usize, b: usize) -> (r: i128)
    requires
        a < b <= shots@.len(),
        bounded(shots@),
    ensures
        r == length(shots@, (a as int, b as int)),
{
    proof {
        let x = shots@[b - 1];
        let y = shots@[a as int];
    }
    shots[b - 1].1 - shots[a].0
}

/// Groups shots into scenes: `sims[i]` is the similarity between shot `i` and the next one,
/// `crossing[i]` whether speech crosses that boundary. Gives index ranges of shots, the end not
/// included.
pub fn group(
    shots: &Vec<(i128, i128)>,
    sims: &Vec<Option<i64>>,
    crossing: &Vec<bool>,
) -> (r: Vec<(usize, usize)>)
    requires
        bounded(shots@),
    ensures
        ranges_of(r@) == grouped(shots@, sims@, crossing@),
{
    let n: usize = shots.len();
    let mut scenes: Vec<(usize, usize)> = Vec::new();
    let mut k: usize = 0;
    while k < n
        invariant
            k <= n,
            ranges_of(scenes@) == singles(n as int).take(k as int),
        decreases n - k,
    {
        let ghost before = ranges_of(scenes@);
        scenes.push((k, k + 1));
        proof {
            assert(ranges_of(scenes@) =~= before.push((k as int, k + 1)));
            assert(singles(n as int).take(k + 1) =~= singles(n as int).take(k as int).push(
                (k as int, k + 1),
            ));
        }
        k = k + 1;
    }
    let ghost ones = singles(n as int);
    proof {
        assert(ones.take(n as int) =~= ones);
    }
    if n == 0 {
        proof {
            lemma_no_shots(shots@, sims@, crossing@, ones);
            assert(ranges_of(scenes@) =~= grouped(shots@, sims@, crossing@));
        }
        return scenes;
    }
    proof {
        assert(covers(ones, n as int));
    }
    let mut merged: bool = true;
    while merged
        invariant
            n == shots@.len(),
            bounded(shots@),
            covers(ranges_of(scenes@), n as int),
            if merged {
                passes(shots@, sims@, crossing@, ranges_of(scenes@)) == passes(
                    shots@,
                    sims@,
                    crossing@,
                    ones,
                )
            } else {
                ranges_of(scenes@) == passes(shots@, sims@, crossing@, ones)
            },
        decreases scenes@.len() + (if merged {
            1int
        } else {
            0int
        }),
    {
        let ghost start = ranges_of(scenes@);
        let count: usize = scenes.len();
        let mut i: usize = 0;
        while scenes.len() - i > 1
            invariant
                n == shots@.len(),
                bounded(shots@),
                i <= scenes@.len() <= count,
                covers(ranges_of(scenes@), n as int),
                pass(shots@, sims@, crossing@, ranges_of(scenes@), i as int) == pass(
                    shots@,
                    sims@,
                    crossing@,
                    start,
                    0,
                ),
            decreases scenes@.len() - i,
        {
            let ghost sc = ranges_of(scenes@);
            let (a, b) = scenes[i];
            let (c, d) = scenes[i + 1];
            proof {
                assert(sc[i as int] == (a as int, b as int));
                assert(sc[i + 1] == (c as int, d as int));
                assert(sc[i as int].1 == sc[i + 1].0);
            }
            let is_weak: bool = strength_of(sims, crossing, b - 1) < 1_000_000;
            let are_short: bool = length_of(shots, a, b) < MIN_SCENE_NANOS && length_of(shots, c, d)
                < MIN_SCENE_NANOS;
            if (is_weak || are_short) && length_of(shots, a, d) <= MAX_SCENE_NANOS {
                merge(&mut scenes, i, Ghost(n as int));
            } else {
                i = i + 1;
            }
        }
        proof {
            assert(ranges_of(scenes@) == pass(shots@, sims@, crossing@, start, 0));
        }
        merged = scenes.len() < count;
    }
    let ghost mid = ranges_of(scenes@);
    let mut i: usize = 0;
    while scenes.len() > 1 && i < scenes.len()
        invariant
            n == shots@.len(),
            bounded(shots@),
            i <= scenes@.len(),
            covers(ranges_of(scenes@), n as int),
            joined(shots@, sims@, crossing@, ranges_of(scenes@), i as int) == joined(
                shots@,
                sims@,
                crossing@,
                mid,
                0,
            ),
        decreases scenes@.len() - i,
    {
        let ghost sc = ranges_of(scenes@);
        let (a, b) = scenes[i];
        proof {
            assert(sc[i as int] == (a as int, b as int));
        }
        if length_of(shots, a, b) < MIN_SCENE_NANOS {
            let last: bool = scenes.len() - i <= 1;
            proof {
                if i > 0 {
                    assert(sc[i - 1].1 == sc[i as int].0);
                    assert(sc[i - 1].0 < sc[i - 1].1);
                }
            }
            let left: bool = i > 0 && (last || strength_of(sims, crossing, a - 1) <= strength_of(
                sims,
                crossing,
                b - 1,
            ));
            if left {
                merge(&mut scenes, i - 1, Ghost(n as int));
            } else {
                merge(&mut scenes, i, Ghost(n as int));
            }
        } else {
            i = i + 1;
        }
    }
    scenes
}

/// The length that pieces of a long shot are aimed at.
pub const PIECE_NANOS: i128 = 120_000_000_000;

/// How far a cut may be moved.
pub const SNAP_NANOS: i128 = 10_000_000_000;

/// How far a moved cut stays away from the ends of its shot.
pub const EDGE_NANOS: i128 = 1_000_000_000;

/// How many pieces a shot of a length is cut into.
pub open spec fn piece_count(len: int) -> int {
    if len <= MAX_SCENE_NANOS {
        1
    } else {
        let n = (2 * len + PIECE_NANOS) / (2 * PIECE_NANOS);
        if n < 2 {
            2
        } else {
            n
        }
    }
}

/// The distance of two times.
pub open spec fn distance(a: int, b: int) -> int {
    if a < b {
        b - a
    } else {
        a - b
    }
}

/// A start of speech to which a cut at `c` in a shot from `a` to `b` may be moved.
pub open spec fn snaps(s: int, c: int, a: int, b: int) -> bool {
    distance(s, c) <= SNAP_NANOS && s > a + EDGE_NANOS && s < b - EDGE_NANOS
}

/// The start of speech to which a cut is moved: the first of the nearest.
pub open spec fn nearest(spans: Seq<(i128, i128)>, c: int, a: int, b: int) -> Option<int>
    decreases spans.len(),
{
    if spans.len() == 0 {
        None
    } else {
        let rest = nearest(spans.drop_last(), c, a, b);
        let s = spans.last().0 as int;
        if !snaps(s, c, a, b) {
            rest
        } else {
            match rest {
                Some(r) => if distance(s, c) < distance(r, c) {
                    Some(s)
                } else {
                    Some(r)
                },
                None => Some(s),
            }
        }
    }
}

/// Where the shot from `a` to `b` is cut before piece `k` of `n`.
pub open spec fn cut(spans: Seq<(i128, i128)>, a: int, b: int, n: int, k: int) -> int {
    let c = a + ((b - a) * k) / n;
    match nearest(spans, c, a, b) {
        Some(s) => s,
        None => c,
    }
}

/// A time in nanoseconds as a time in milliseconds, rounded.
pub open spec fn in_millis(t: int) -> Timestamp {
    Timestamp {
        num: (if t >= 0 {
            (t + 500_000) / 1_000_000
        } else {
            -((-t + 500_000) / 1_000_000)
        }) as i64,
        den: 1000,
    }
}

/// The time at which piece `k` of `n` of a shot starts, and piece `k - 1` ends.
pub open spec fn edge_time(shot: Segment, spans: Seq<(i128, i128)>, n: int, k: int) -> Timestamp {
    if k <= 0 {
        shot.t0
    } else if k >= n {
        shot.t1
    } else {
        in_millis(cut(spans, decode::nanos(shot.t0), decode::nanos(shot.t1), n, k))
    }
}

/// How many pieces a shot is cut into.
pub open spec fn shot_pieces(shot: Segment) -> int {
    piece_count(decode::nanos(shot.t1) - decode::nanos(shot.t0))
}

/// The pieces of shots: of which shot, and from when to when.
pub open spec fn split_plan(shots: Seq<Segment>, spans: Seq<(i128, i128)>) -> Seq<
    (int, Timestamp, Timestamp),
>
    decreases shots.len(),
{
    if shots.len() == 0 {
        Seq::empty()
    } else {
        let i = shots.len() - 1;
        let n = shot_pieces(shots[i]);
        split_plan(shots.drop_last(), spans) + Seq::new(
            n as nat,
            |k: int|
                (
                    i,
                    edge_time(shots[i], spans, n, k),
                    edge_time(shots[i], spans, n, k + 1),
                ),
        )
    }
}

/// A segment is a piece of another.
pub open spec fn is_piece(p: Segment, shot: Segment, t0: Timestamp, t1: Timestamp) -> bool {
    model::same_segment(p, Segment { t0, t1, ..shot })
}

/// Segments are the planned pieces of shots.
pub open spec fn are_pieces(
    r: Seq<Segment>,
    shots: Seq<Segment>,
    plan: Seq<(int, Timestamp, Timestamp)>,
) -> bool {
    r.len() == plan.len() && forall|i: int|
        0 <= i < r.len() ==> is_piece(
            #[trigger] r[i],
            shots[plan[i].0],
            plan[i].1,
            plan[i].2,
        )
}

/// The pieces of a shot follow each other from the shot's start to its end, and a shot that is
/// not too long is its only piece.
pub proof fn law_pieces_follow(shot: Segment, spans: Seq<(i128, i128)>)
    ensures
        ({
            let p = split_plan(seq![shot], spans);
            &&& p.len() > 0
            &&& p[0].1 == shot.t0
            &&& p.last().2 == shot.t1
            &&& forall|k: int| 0 <= k < p.len() - 1 ==> (#[trigger] p[k]).2 == p[k + 1].1
            &&& p.len() == 1 <==> decode::nanos(shot.t1) - decode::nanos(shot.t0)
                <= MAX_SCENE_NANOS
        }),
{
    let one = seq![shot];
    assert(one.drop_last() =~= Seq::<Segment>::empty());
    reveal_with_fuel(split_plan, 2);
    let n = shot_pieces(shot);
    let p = split_plan(one, spans);
    assert(p =~= Seq::new(
        n as nat,
        |k: int| (0int, edge_time(shot, spans, n, k), edge_time(shot, spans, n, k + 1)),
    ));
}

/// Speech that starts at `s` can take over a cut at `c` of a shot from `a` to `b`: it starts within
/// ten seconds of the cut, and more than a second from either end of the shot.
pub open spec fn can_take_over(s: int, c: int, a: int, b: int) -> bool {
    &&& c - 10_000_000_000 <= s <= c + 10_000_000_000
    &&& a + 1_000_000_000 < s < b - 1_000_000_000
}

proof fn lemma_nearest(spans: Seq<(i128, i128)>, c: int, a: int, b: int)
    ensures
        match nearest(spans, c, a, b) {
            Some(s) => exists|j: int|
                0 <= j < spans.len() && s == #[trigger] spans[j].0 && can_take_over(s, c, a, b)
                    && forall|i: int|
                    0 <= i < spans.len() && can_take_over((#[trigger] spans[i]).0 as int, c, a, b)
                        ==> distance(s, c) <= distance(spans[i].0 as int, c) && (i < j ==> distance(
                        s,
                        c,
                    ) < distance(spans[i].0 as int, c)),
            None => forall|i: int|
                0 <= i < spans.len() ==> !can_take_over((#[trigger] spans[i]).0 as int, c, a, b),
        },
    decreases spans.len(),
{
    if spans.len() > 0 {
        let t = spans.drop_last();
        lemma_nearest(t, c, a, b);
        let l = spans.len() - 1;
        let x = spans[l].0 as int;
        assert(snaps(x, c, a, b) == can_take_over(x, c, a, b));
        assert forall|i: int| 0 <= i < l implies #[trigger] spans[i] == t[i] by {}
        match nearest(t, c, a, b) {
            Some(s) => {
                let j = choose|j: int|
                    0 <= j < t.len() && s == #[trigger] t[j].0 && can_take_over(s, c, a, b)
                        && forall|i: int|
                        0 <= i < t.len() && can_take_over((#[trigger] t[i]).0 as int, c, a, b)
                            ==> distance(s, c) <= distance(t[i].0 as int, c) && (i < j ==> distance(
                            s,
                            c,
                        ) < distance(t[i].0 as int, c));
                assert(spans[j] == t[j]);
                let w = if snaps(x, c, a, b) && distance(x, c) < distance(s, c) {
                    l
                } else {
                    j
                };
                let r = spans[w].0 as int;
                assert(nearest(spans, c, a, b) == Some(r));
                assert forall|i: int|
                    0 <= i < spans.len() && can_take_over(
                        (#[trigger] spans[i]).0 as int,
                        c,
                        a,
                        b,
                    ) implies distance(r, c) <= distance(spans[i].0 as int, c) && (i < w
                    ==> distance(r, c) < distance(spans[i].0 as int, c)) by {
                    if i < l {
                        assert(spans[i] == t[i]);
                    }
                }
            },
            None => {
                if snaps(x, c, a, b) {
                    assert(nearest(spans, c, a, b) == Some(x));
                    assert forall|i: int|
                        0 <= i < spans.len() && can_take_over(
                            (#[trigger] spans[i]).0 as int,
                            c,
                            a,
                            b,
                        ) implies distance(x, c) <= distance(spans[i].0 as int, c) && (i < l
                        ==> distance(x, c) < distance(spans[i].0 as int, c)) by {
                        if i < l {
                            assert(spans[i] == t[i]);
                        }
                    }
                    assert(x == spans[l].0);
                } else {
                    assert forall|i: int| 0 <= i < spans.len() implies !can_take_over(
                        (#[trigger] spans[i]).0 as int,
                        c,
                        a,
                        b,
                    ) by {
                        if i < l {
                            assert(spans[i] == t[i]);
                        }
                    }
                }
            },
        }
    }
}

/// Long shots are cut at even distances, and a cut is moved to the nearest start of speech that
/// can take it over, the first of equally near ones; it stays where there is none.
pub proof fn law_cuts_follow_speech(spans: Seq<(i128, i128)>, a: int, b: int, n: int, k: int)
    ensures
        ({
            let c = a + ((b - a) * k) / n;
            let at = cut(spans, a, b, n, k);
            &&& c - 10_000_000_000 <= at <= c + 10_000_000_000
            &&& (forall|i: int|
                0 <= i < spans.len() ==> !can_take_over((#[trigger] spans[i]).0 as int, c, a, b))
                ==> at == c
            &&& forall|i: int|
                0 <= i < spans.len() && can_take_over((#[trigger] spans[i]).0 as int, c, a, b)
                    ==> distance(at, c) <= distance(spans[i].0 as int, c) && can_take_over(
                    at,
                    c,
                    a,
                    b,
                ) && exists|j: int|
                    0 <= j < spans.len() && at == #[trigger] spans[j].0 && (i < j ==> distance(at, c)
                        < distance(spans[i].0 as int, c))
        }),
{
    let c = a + ((b - a) * k) / n;
    lemma_nearest(spans, c, a, b);
}

/// A shot of three minutes or less is one piece; a longer one is cut into the number of pieces
/// that makes them last nearest to two minutes.
pub proof fn law_pieces_aim_at_two_minutes(len: int)
    ensures
        piece_count(len) == 1 <==> len <= 180_000_000_000,
        len > 180_000_000_000 ==> piece_count(len) * 120_000_000_000 - 60_000_000_000 <= len
            < piece_count(len) * 120_000_000_000 + 60_000_000_000,
{
    let n = (2 * len + 120_000_000_000) / 240_000_000_000;
    assert(2 * PIECE_NANOS == 240_000_000_000);
    assert(len > 180_000_000_000 ==> n >= 2);
    assert(len > 180_000_000_000 ==> piece_count(len) == n);
}

/// A time in milliseconds is the nearest to the time in nanoseconds.
pub proof fn law_milliseconds_are_nearest(t: int)
    requires
        -4_611_686_018_427_387_904_000 <= t <= 4_611_686_018_427_387_904_000,
    ensures
        in_millis(t).den == 1000,
        -500_000 <= in_millis(t).num * 1_000_000 - t <= 500_000,
{
}

fn copy_text(s: &Option<String>) -> (r: Option<String>)
    ensures
        text::opt_text(r) == text::opt_text(*s),
{
    match s {
        Some(t) => Some(t.clone()),
        None => None,
    }
}

fn piece_of(shot: &Segment, t0: Timestamp, t1: Timestamp) -> (p: Segment)
    ensures
        is_piece(p, *shot, t0, t1),
{
    Segment {
        id: shot.id,
        video_id: shot.video_id,
        level: shot.level,
        parent_id: shot.parent_id,
        t0,
        t1,
        keyframe_sample_id: shot.keyframe_sample_id,
        title: copy_text(&shot.title),
        summary: copy_text(&shot.summary),
        provenance_id: shot.provenance_id,
    }
}

fn apart(a: i128, b: i128) -> (d: i128)
    requires
        -0x10_0000_0000_0000_0000_0000_0000 <= a <= 0x10_0000_0000_0000_0000_0000_0000,
        -0x10_0000_0000_0000_0000_0000_0000 <= b <= 0x10_0000_0000_0000_0000_0000_0000,
    ensures
        d == distance(a as int, b as int),
{
    if a < b {
        b - a
    } else {
        a - b
    }
}

/// Starts and ends of speech are in bounds.
pub open spec fn spans_bounded(spans: Seq<(i128, i128)>) -> bool {
    forall|i: int|
        0 <= i < spans.len() ==> -0x10_0000_0000_0000_0000_0000_0000 <= (#[trigger] spans[i]).0
            <= 0x10_0000_0000_0000_0000_0000_0000 && -0x10_0000_0000_0000_0000_0000_0000
            <= spans[i].1 <= 0x10_0000_0000_0000_0000_0000_0000
}

fn find_nearest(spans: &Vec<(i128, i128)>, c: i128, a: i128, b: i128) -> (r: Option<i128>)
    requires
        spans_bounded(spans@),
        -0x10_0000_0000_0000_0000_0000_0000 <= a <= c <= b <= 0x10_0000_0000_0000_0000_0000_0000,
    ensures
        match r {
            Some(s) => nearest(spans@, c as int, a as int, b as int) == Some(s as int) && a < s < b,
            None => nearest(spans@, c as int, a as int, b as int) is None,
        },
{
    let mut best: Option<i128> = None;
    let mut i: usize = 0;
    proof {
        assert(spans@.take(0) =~= Seq::<(i128, i128)>::empty());
    }
    while i < spans.len()
        invariant
            i <= spans@.len(),
            spans_bounded(spans@),
            -0x10_0000_0000_0000_0000_0000_0000 <= a <= c <= b
                <= 0x10_0000_0000_0000_0000_0000_0000,
            match best {
                Some(s) => nearest(spans@.take(i as int), c as int, a as int, b as int) == Some(
                    s as int,
                ) && a < s < b,
                None => nearest(spans@.take(i as int), c as int, a as int, b as int) is None,
            },
        decreases spans@.len() - i,
    {
        proof {
            assert(spans@.take(i + 1).drop_last() =~= spans@.take(i as int));
            let x = spans@[i as int];
        }
        let s: i128 = spans[i].0;
        if apart(s, c) <= SNAP_NANOS && s > a + EDGE_NANOS && s < b - EDGE_NANOS {
            match best {
                Some(r) => {
                    if apart(s, c) < apart(r, c) {
                        best = Some(s);
                    }
                },
                None => {
                    best = Some(s);
                },
            }
        }
        i = i + 1;
    }
    proof {
        assert(spans@.take(i as int) =~= spans@);
    }
    best
}

fn to_millis(t: i128) -> (r: Timestamp)
    requires
        -MAX_SHOT_NANOS <= t <= MAX_SHOT_NANOS,
    ensures
        r == in_millis(t as int),
{
    let num: i64 = if t >= 0 {
        ((t + 500_000) / 1_000_000) as i64
    } else {
        -(((-t + 500_000) / 1_000_000) as i64)
    };
    Timestamp::new(num, 1000)
}

/// The latest time that a shot may have, some hundred thousand years on.
pub const MAX_SHOT_NANOS: i128 = 4_611_686_018_427_387_904_000;

/// A shot's times are in bounds.
pub open spec fn in_range(s: Segment) -> bool {
    s.t0.wf() && s.t1.wf() && -MAX_SHOT_NANOS <= decode::nanos(s.t0) <= MAX_SHOT_NANOS
        && -MAX_SHOT_NANOS <= decode::nanos(s.t1) <= MAX_SHOT_NANOS
}

proof fn lemma_cut_inside(len: int, n: int, k: int)
    requires
        len >= 0,
        n >= 1,
        0 <= k <= n,
    ensures
        0 <= len * k,
        0 <= (len * k) / n <= len,
{
    assert(0 <= len * k && len * k <= len * n) by (nonlinear_arith)
        requires
            len >= 0,
            0 <= k <= n,
    ;
    assert(0 <= (len * k) / n <= len) by (nonlinear_arith)
        requires
            0 <= len * k,
            len * k <= len * n,
            n >= 1,
    ;
}

/// Cuts shots longer than the longest scene into pieces of about two thirds of that, moving each
/// cut to the nearest start of speech within ten seconds when there is one. Pieces keep all of
/// the shot but its times.
pub fn split_long_shots(shots: &Vec<Segment>, spans: &Vec<(i128, i128)>) -> (r: Vec<Segment>)
    requires
        forall|i: int| 0 <= i < shots@.len() ==> in_range(#[trigger] shots@[i]),
        spans_bounded(spans@),
    ensures
        are_pieces(r@, shots@, split_plan(shots@, spans@)),
{
    let mut out: Vec<Segment> = Vec::new();
    let mut i: usize = 0;
    proof {
        assert(shots@.take(0) =~= Seq::<Segment>::empty());
    }
    while i < shots.len()
        invariant
            i <= shots@.len(),
            forall|i: int| 0 <= i < shots@.len() ==> in_range(#[trigger] shots@[i]),
            spans_bounded(spans@),
            are_pieces(out@, shots@, split_plan(shots@.take(i as int), spans@)),
        decreases shots@.len() - i,
    {
        let shot = &shots[i];
        proof {
            assert(in_range(shots@[i as int]));
            assert(shots@.take(i + 1).drop_last() =~= shots@.take(i as int));
        }
        let a: i128 = decode::to_nanos(shot.t0);
        let b: i128 = decode::to_nanos(shot.t1);
        let len: i128 = b - a;
        let n: i128 = if len <= MAX_SCENE_NANOS {
            1
        } else {
            let m: i128 = (2 * len + PIECE_NANOS) / (2 * PIECE_NANOS);
            if m < 2 {
                2
            } else {
                m
            }
        };
        let ghost had = split_plan(shots@.take(i as int), spans@);
        let ghost plan = split_plan(shots@.take(i + 1), spans@);
        let ghost before = out@;
        let mut k: i128 = 0;
        let mut from = shot.t0;
        proof {
            assert(n == shot_pieces(*shot));
            assert(plan.len() == had.len() + n);
            assert forall|j: int| 0 <= j < had.len() implies #[trigger] plan[j] == had[j] by {}
        }
        while k < n
            invariant
                0 <= k <= n,
                n >= 1,
                i < shots@.len(),
                *shot == shots@[i as int],
                in_range(*shot),
                spans_bounded(spans@),
                a == decode::nanos(shot.t0),
                b == decode::nanos(shot.t1),
                len == b - a,
                n > 1 ==> len > MAX_SCENE_NANOS,
                n <= 0x100_0000_0000,
                n == shot_pieces(*shot),
                from == edge_time(*shot, spans@, n as int, k as int),
                plan.len() == had.len() + n,
                forall|j: int|
                    0 <= j < n ==> #[trigger] plan[had.len() + j] == (
                        i as int,
                        edge_time(*shot, spans@, n as int, j),
                        edge_time(*shot, spans@, n as int, j + 1),
                    ),
                out@.len() == had.len() + k,
                forall|j: int|
                    0 <= j < out@.len() ==> is_piece(
                        #[trigger] out@[j],
                        shots@[plan[j].0],
                        plan[j].1,
                        plan[j].2,
                    ),
            decreases n - k,
        {
            let to = if k + 1 >= n {
                shot.t1
            } else {
                proof {
                    lemma_cut_inside(len as int, n as int, k + 1);
                    assert(len * (k + 1) <= 0x100_0000_0000_0000_0000_0000_0000_0000)
                        by (nonlinear_arith)
                        requires
                            0 <= len <= 9_223_372_036_854_775_808_000,
                            0 <= k + 1 <= 0x100_0000_0000,
                    ;
                }
                let c: i128 = a + (len * (k + 1)) / n;
                match find_nearest(spans, c, a, b) {
                    Some(s) => to_millis(s),
                    None => to_millis(c),
                }
            };
            proof {
                assert(plan[had.len() + k] == (
                    i as int,
                    edge_time(*shot, spans@, n as int, k as int),
                    edge_time(*shot, spans@, n as int, k + 1),
                ));
            }
            out.push(piece_of(shot, from, to));
            from = to;
            k = k + 1;
        }
        i = i + 1;
    }
    proof {
        assert(shots@.take(i as int) =~= shots@);
    }
    out
}

/// Speech crosses a boundary: some of it reaches more than half a second to either side.
pub open spec fn crosses(spans: Seq<(i128, i128)>, b: int) -> bool {
    exists|k: int|
        0 <= k < spans.len() && (#[trigger] spans[k]).0 < b - 500_000_000 && spans[k].1 > b
            + 500_000_000
}

/// Whether speech crosses each boundary between shots.
pub fn crossings(shots: &Vec<Segment>, spans: &Vec<(i128, i128)>) -> (r: Vec<bool>)
    requires
        forall|i: int| 0 <= i < shots@.len() ==> (#[trigger] shots@[i]).t1.wf(),
    ensures
        r@.len() == (if shots@.len() == 0 {
            0
        } else {
            shots@.len() - 1
        }),
        forall|i: int|
            0 <= i < r@.len() ==> #[trigger] r@[i] == crosses(
                spans@,
                decode::nanos(shots@[i].t1),
            ),
{
    let n: usize = shots.len();
    let mut out: Vec<bool> = Vec::new();
    if n > 0 {
        let mut i: usize = 0;
        while i < n - 1
            invariant
                i < n == shots@.len(),
                forall|i: int| 0 <= i < shots@.len() ==> (#[trigger] shots@[i]).t1.wf(),
                out@.len() == i,
                forall|j: int|
                    0 <= j < i ==> #[trigger] out@[j] == crosses(
                        spans@,
                        decode::nanos(shots@[j].t1),
                    ),
            decreases n - i,
        {
            proof {
                assert(shots@[i as int].t1.wf());
            }
            let b: i128 = decode::to_nanos(shots[i].t1);
            let mut hit: bool = false;
            let mut k: usize = 0;
            while k < spans.len()
                invariant
                    k <= spans@.len(),
                    b == decode::nanos(shots@[i as int].t1),
                    -0x100_0000_0000_0000_0000_0000_0000 <= b
                        <= 0x100_0000_0000_0000_0000_0000_0000,
                    hit <==> exists|j: int|
                        0 <= j < k && (#[trigger] spans@[j]).0 < b - 500_000_000 && spans@[j].1 > b
                            + 500_000_000,
                decreases spans@.len() - k,
            {
                if spans[k].0 < b - 500_000_000 && spans[k].1 > b + 500_000_000 {
                    hit = true;
                }
                k = k + 1;
            }
            out.push(hit);
            i = i + 1;
        }
    }
    out
}

/// The row of scene `k`.
pub open spec fn is_scene(
    s: Segment,
    shots: Seq<Segment>,
    groups: Seq<(int, int)>,
    k: int,
    video: u128,
    duration: Timestamp,
    id: u128,
    prov: u128,
) -> bool {
    let (a, b) = groups[k];
    &&& s.id == id
    &&& s.video_id == video
    &&& s.level == SegmentLevel::Scene
    &&& s.parent_id is None
    &&& s.t0 == (if k == 0 {
        Timestamp { num: 0, den: 1 }
    } else {
        shots[a].t0
    })
    &&& s.t1 == (if k == groups.len() - 1 && timestamp::le_time(shots[b - 1].t1, duration) {
        duration
    } else {
        shots[b - 1].t1
    })
    &&& s.keyframe_sample_id == shots[a].keyframe_sample_id
    &&& s.title is None
    &&& s.summary is None
    &&& s.provenance_id == prov
}

/// The rows of scenes: the first starts at time zero, the last ends with the video.
pub fn scene_rows(
    shots: &Vec<Segment>,
    groups: &Vec<(usize, usize)>,
    video: u128,
    duration: Timestamp,
    ids: &Vec<u128>,
    prov: u128,
) -> (r: Vec<Segment>)
    requires
        ids@.len() >= groups@.len(),
        forall|k: int|
            0 <= k < groups@.len() ==> (#[trigger] groups@[k]).0 < groups@[k].1 <= shots@.len(),
    ensures
        r@.len() == groups@.len(),
        forall|k: int|
            0 <= k < groups@.len() ==> is_scene(
                #[trigger] r@[k],
                shots@,
                ranges_of(groups@),
                k,
                video,
                duration,
                ids@[k],
                prov,
            ),
{
    let n: usize = groups.len();
    let mut out: Vec<Segment> = Vec::new();
    let mut k: usize = 0;
    while k < n
        invariant
            k <= n == groups@.len(),
            ids@.len() >= n,
            forall|k: int|
                0 <= k < groups@.len() ==> (#[trigger] groups@[k]).0 < groups@[k].1 <= shots@.len(),
            out@.len() == k,
            forall|j: int|
                0 <= j < k ==> is_scene(
                    #[trigger] out@[j],
                    shots@,
                    ranges_of(groups@),
                    j,
                    video,
                    duration,
                    ids@[j],
                    prov,
                ),
        decreases n - k,
    {
        let (a, b) = groups[k];
        proof {
            assert(ranges_of(groups@)[k as int] == (a as int, b as int));
        }
        let t0 = if k == 0 {
            Timestamp::zero()
        } else {
            shots[a].t0
        };
        let t1 = if k == n - 1 {
            shots[b - 1].t1.max(duration)
        } else {
            shots[b - 1].t1
        };
        out.push(
            Segment {
                id: ids[k],
                video_id: video,
                level: SegmentLevel::Scene,
                parent_id: None,
                t0,
                t1,
                keyframe_sample_id: shots[a].keyframe_sample_id,
                title: None,
                summary: None,
                provenance_id: prov,
            },
        );
        k = k + 1;
    }
    out
}

/// A scene holds a point in time.
pub open spec fn holds(s: Segment, t: int) -> bool {
    decode::nanos(s.t0) <= t < decode::nanos(s.t1)
}

/// Scene `k` is the first that holds a point in time.
pub open spec fn scene_at(scenes: Seq<Segment>, t: int, k: int) -> bool {
    0 <= k < scenes.len() && holds(scenes[k], t) && forall|j: int|
        0 <= j < k ==> !holds(#[trigger] scenes[j], t)
}

/// A shot belongs to the first scene that holds the point a millisecond behind its start, and
/// stays where it was when none does.
pub open spec fn is_parent(shot: Segment, scenes: Seq<Segment>, parent: Option<u128>) -> bool {
    let t = decode::nanos(shot.t0) + 1_000_000;
    ||| exists|k: int| #[trigger] scene_at(scenes, t, k) && parent == Some(scenes[k].id)
    ||| parent == shot.parent_id && forall|j: int|
        0 <= j < scenes.len() ==> !holds(#[trigger] scenes[j], t)
}

/// The scene that a shot belongs to: the first that holds the point a millisecond behind its
/// start; the one it belonged to before when none does.
pub fn parent_scene(shot: &Segment, scenes: &Vec<Segment>) -> (r: Option<u128>)
    requires
        shot.t0.wf(),
        forall|i: int|
            0 <= i < scenes@.len() ==> (#[trigger] scenes@[i]).t0.wf() && scenes@[i].t1.wf(),
    ensures
        is_parent(*shot, scenes@, r),
{
    let t: i128 = decode::to_nanos(shot.t0) + 1_000_000;
    let mut k: usize = 0;
    while k < scenes.len()
        invariant
            k <= scenes@.len(),
            t == decode::nanos(shot.t0) + 1_000_000,
            forall|i: int|
                0 <= i < scenes@.len() ==> (#[trigger] scenes@[i]).t0.wf() && scenes@[i].t1.wf(),
            forall|j: int| 0 <= j < k ==> !holds(#[trigger] scenes@[j], t as int),
        decreases scenes@.len() - k,
    {
        proof {
            assert(scenes@[k as int].t0.wf());
        }
        if decode::to_nanos(scenes[k].t0) <= t && t < decode::to_nanos(scenes[k].t1) {
            proof {
                assert(scene_at(scenes@, t as int, k as int));
            }
            return Some(scenes[k].id);
        }
        k = k + 1;
    }
    shot.parent_id
}

/// What scenes are made of, in order of time: the shots that came, or else those that are stored;
/// nothing if there are none.
pub fn start_scenes(shots: Vec<Segment>, stored: Vec<Segment>) -> (r: Option<Vec<Segment>>)
    ensures
        ({
            let first = if shots@.len() > 0 {
                shots@
            } else {
                stored@
            };
            match r {
                Some(v) => first.len() > 0 && v@ == model::by_start(first),
                None => first.len() == 0,
            }
        }),
{
    let first = if shots.len() > 0 {
        shots
    } else {
        stored
    };
    if first.len() == 0 {
        None
    } else {
        Some(model::sort_segments(first))
    }
}

/// When shots start and end, in nanoseconds.
pub open spec fn times_of(shots: Seq<Segment>) -> Seq<(i128, i128)> {
    shots.map_values(|s: Segment| (decode::nanos(s.t0) as i128, decode::nanos(s.t1) as i128))
}

/// Whether speech crosses each boundary between shots.
pub open spec fn crossed(shots: Seq<Segment>, spans: Seq<(i128, i128)>) -> Seq<bool> {
    Seq::new(
        if shots.len() == 0 {
            0
        } else {
            (shots.len() - 1) as nat
        },
        |i: int| crosses(spans, decode::nanos(shots[i].t1)),
    )
}

/// The groups of shots that are scenes.
pub open spec fn scene_groups(
    shots: Seq<Segment>,
    sims: Seq<Option<i64>>,
    spans: Seq<(i128, i128)>,
) -> Seq<(int, int)> {
    grouped(times_of(shots), sims, crossed(shots, spans))
}

fn times(shots: &Vec<Segment>) -> (r: Vec<(i128, i128)>)
    requires
        forall|i: int|
            0 <= i < shots@.len() ==> (#[trigger] shots@[i]).t0.wf() && shots@[i].t1.wf(),
    ensures
        r@ == times_of(shots@),
        bounded(r@),
{
    let mut r: Vec<(i128, i128)> = Vec::new();
    let mut i: usize = 0;
    while i < shots.len()
        invariant
            i <= shots@.len(),
            forall|i: int|
                0 <= i < shots@.len() ==> (#[trigger] shots@[i]).t0.wf() && shots@[i].t1.wf(),
            r@ =~= times_of(shots@).take(i as int),
            bounded(r@),
        decreases shots@.len() - i,
    {
        let s = &shots[i];
        proof {
            assert(shots@[i as int].t0.wf());
        }
        r.push((decode::to_nanos(s.t0), decode::to_nanos(s.t1)));
        i = i + 1;
    }
    r
}

proof fn lemma_few_groups(scenes: Seq<(int, int)>, n: int, i: int)
    requires
        covers(scenes, n),
        0 <= i < scenes.len(),
    ensures
        scenes[i].1 >= i + 1,
    decreases i,
{
    if i > 0 {
        lemma_few_groups(scenes, n, i - 1);
        assert(scenes[i - 1].1 == scenes[i - 1 + 1].0);
    }
}

/// A shot that belongs to one of the scenes now.
pub open spec fn is_placed(new: Segment, shot: Segment, scenes: Seq<Segment>) -> bool {
    model::same_segment(new, Segment { parent_id: new.parent_id, ..shot }) && is_parent(
        shot,
        scenes,
        new.parent_id,
    )
}

fn place_shots(shots: Vec<Segment>, scenes: &Vec<Segment>) -> (r: Vec<Segment>)
    requires
        forall|i: int| 0 <= i < shots@.len() ==> (#[trigger] shots@[i]).t0.wf(),
        forall|i: int|
            0 <= i < scenes@.len() ==> (#[trigger] scenes@[i]).t0.wf() && scenes@[i].t1.wf(),
    ensures
        r@.len() == shots@.len(),
        forall|i: int| 0 <= i < r@.len() ==> is_placed(#[trigger] r@[i], shots@[i], scenes@),
{
    let mut r: Vec<Segment> = Vec::new();
    for s in it: shots
        invariant
            shots@ == it.seq(),
            forall|i: int| 0 <= i < shots@.len() ==> (#[trigger] shots@[i]).t0.wf(),
            forall|i: int|
                0 <= i < scenes@.len() ==> (#[trigger] scenes@[i]).t0.wf() && scenes@[i].t1.wf(),
            r@.len() == it.index(),
            forall|i: int| 0 <= i < r@.len() ==> is_placed(#[trigger] r@[i], shots@[i], scenes@),
    {
        proof {
            assert(shots@[it.index() as int] == s);
        }
        let parent = parent_scene(&s, scenes);
        r.push(Segment { parent_id: parent, ..s });
    }
    r
}

/// Groups the pieces of shots into scenes, which reach from time zero to the end of the video, and
/// says of each shot to which scene it belongs.
pub fn divide_scenes(
    shots: Vec<Segment>,
    pieces: &Vec<Segment>,
    sims: &Vec<Option<i64>>,
    spans: &Vec<(i128, i128)>,
    video: u128,
    duration: Timestamp,
    ids: &Vec<u128>,
    prov: u128,
) -> (r: (Vec<Segment>, Vec<Segment>))
    requires
        pieces@.len() > 0,
        forall|i: int|
            0 <= i < pieces@.len() ==> (#[trigger] pieces@[i]).t0.wf() && pieces@[i].t1.wf(),
        forall|i: int| 0 <= i < shots@.len() ==> (#[trigger] shots@[i]).t0.wf(),
        duration.wf(),
        ids@.len() >= pieces@.len(),
    ensures
        r.0@.len() == scene_groups(pieces@, sims@, spans@).len() <= pieces@.len(),
        forall|k: int|
            0 <= k < r.0@.len() ==> is_scene(
                #[trigger] r.0@[k],
                pieces@,
                scene_groups(pieces@, sims@, spans@),
                k,
                video,
                duration,
                ids@[k],
                prov,
            ),
        r.1@.len() == shots@.len(),
        forall|i: int| 0 <= i < r.1@.len() ==> is_placed(#[trigger] r.1@[i], shots@[i], r.0@),
{
    let ranges = times(pieces);
    let crossing = crossings(pieces, spans);
    let groups = group(&ranges, sims, &crossing);
    let ghost g = scene_groups(pieces@, sims@, spans@);
    proof {
        assert(crossing@ =~= crossed(pieces@, spans@));
        assert(ranges_of(groups@) == g);
        law_scenes_leave_no_gap(ranges@, sims@, crossing@);
        lemma_few_groups(g, pieces@.len() as int, g.len() - 1);
        assert forall|k: int| 0 <= k < groups@.len() implies (#[trigger] groups@[k]).0
            < groups@[k].1 <= pieces@.len() by {
            assert(g[k] == (groups@[k].0 as int, groups@[k].1 as int));
        }
    }
    let scenes = scene_rows(pieces, &groups, video, duration, ids, prov);
    proof {
        assert forall|i: int| 0 <= i < scenes@.len() implies (#[trigger] scenes@[i]).t0.wf()
            && scenes@[i].t1.wf() by {
            assert(is_scene(scenes@[i], pieces@, g, i, video, duration, ids@[i], prov));
            assert(g[i].0 < g[i].1 <= pieces@.len());
            assert(pieces@[g[i].0].t0.wf());
            assert(pieces@[g[i].1 - 1].t1.wf());
        }
    }
    let placed = place_shots(shots, &scenes);
    (scenes, placed)
}

/// Scenes lie over the whole video: the first starts with it, the last ends no sooner than it, and
/// between them each starts and ends with its shots.
pub proof fn law_scene_rows_span_the_video(
    s: Segment,
    shots: Seq<Segment>,
    groups: Seq<(int, int)>,
    k: int,
    video: u128,
    duration: Timestamp,
    id: u128,
    prov: u128,
)
    requires
        is_scene(s, shots, groups, k, video, duration, id, prov),
        0 <= k < groups.len(),
        duration.wf(),
        shots[groups[k].1 - 1].t1.wf(),
    ensures
        k == 0 ==> s.t0.num == 0,
        k > 0 ==> s.t0 == shots[groups[k].0].t0,
        k < groups.len() - 1 ==> s.t1 == shots[groups[k].1 - 1].t1,
        k == groups.len() - 1 ==> timestamp::le_time(duration, s.t1) && timestamp::le_time(
            shots[groups[k].1 - 1].t1,
            s.t1,
        ),
        s.keyframe_sample_id == shots[groups[k].0].keyframe_sample_id,
{
    timestamp::law_time_total_preorder(duration, shots[groups[k].1 - 1].t1, duration);
    timestamp::law_time_total_preorder(duration, duration, duration);
    timestamp::law_time_total_preorder(
        shots[groups[k].1 - 1].t1,
        shots[groups[k].1 - 1].t1,
        duration,
    );
}

/// A shot belongs to the scene that it lies in a millisecond after its start; of scenes that
/// follow one another there is only one.
pub proof fn law_shots_belong_to_the_scene_around_them(
    shot: Segment,
    scenes: Seq<Segment>,
    parent: Option<u128>,
    k: int,
)
    requires
        is_parent(shot, scenes, parent),
        0 <= k < scenes.len(),
        forall|i: int, j: int|
            0 <= i < j < scenes.len() ==> decode::nanos((#[trigger] scenes[i]).t1) <= decode::nanos(
                (#[trigger] scenes[j]).t0,
            ),
    ensures
        decode::nanos(scenes[k].t0) <= decode::nanos(shot.t0) + 1_000_000 < decode::nanos(
            scenes[k].t1,
        ) ==> parent == Some(scenes[k].id),
        (forall|j: int|
            0 <= j < scenes.len() ==> decode::nanos((#[trigger] scenes[j]).t1) <= decode::nanos(
                shot.t0,
            )) ==> parent == shot.parent_id,
{
    let t = decode::nanos(shot.t0) + 1_000_000;
    if holds(scenes[k], t) {
        let i = choose|i: int| #[trigger] scene_at(scenes, t, i) && parent == Some(scenes[i].id);
        assert(scene_at(scenes, t, i));
        assert(i == k);
    }
}

} // verus!
