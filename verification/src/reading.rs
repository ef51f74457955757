//! From text boxes to lines: the sizes that a detector and a recogniser are given, reading
//! order, batches, greedy decoding, and which lines are kept.

use vstd::prelude::*;

use crate::ocr::TextBox;
use crate::perceive::{show_shape, PerceiveError};
use crate::text::{chars_of, decimal_string, split_at_all, string_of, trim_of};
use crate::{batch, ocr, perceive, raster, text};

verus! {

/// A fraction that things are sorted by.
#[derive(Clone, Copy, Debug, PartialEq, Eq, Structural)]
pub struct Key {
    /// Numerator.
    pub num: u64,
    /// Denominator.
    pub den: u32,
}

/// One key is not behind another.
pub open spec fn le_key(a: Key, b: Key) -> bool {
    a.num * b.den <= b.num * a.den
}

fn key_le(a: Key, b: Key) -> (r: bool)
    ensures
        r == le_key(a, b),
{
    proof {
        assert(0 <= a.num * b.den <= 0xffff_ffff_ffff_ffff * 0xffff_ffff) by (nonlinear_arith)
            requires
                a.num <= 0xffff_ffff_ffff_ffff,
                b.den <= 0xffff_ffff,
        ;
        assert(0 <= b.num * a.den <= 0xffff_ffff_ffff_ffff * 0xffff_ffff) by (nonlinear_arith)
            requires
                b.num <= 0xffff_ffff_ffff_ffff,
                a.den <= 0xffff_ffff,
        ;
    }
    (a.num as u128) * (b.den as u128) <= (b.num as u128) * (a.den as u128)
}

/// Place `x` put into places behind all whose keys are not behind its own.
pub open spec fn put_place(keys: Seq<Key>, s: Seq<int>, x: int) -> Seq<int>
    decreases s.len(),
{
    if s.len() == 0 || le_key(keys[s.last()], keys[x]) {
        s.push(x)
    } else {
        put_place(keys, s.drop_last(), x).push(s.last())
    }
}

/// The first `n` places in the order of their keys; places with equal keys keep their order.
pub open spec fn by_key(keys: Seq<Key>, n: int) -> Seq<int>
    decreases n,
{
    if n <= 0 {
        Seq::empty()
    } else {
        put_place(keys, by_key(keys, n - 1), n - 1)
    }
}

/// Places as mathematics.
pub open spec fn places(s: Seq<usize>) -> Seq<int> {
    s.map_values(|i: usize| i as int)
}

/// Every place below `n` occurs once.
pub open spec fn is_order(s: Seq<int>, n: int) -> bool {
    &&& s.len() == n
    &&& s.no_duplicates()
    &&& forall|i: int| 0 <= i < s.len() ==> 0 <= #[trigger] s[i] < n
}

/// Keys do not descend along places.
pub open spec fn along(keys: Seq<Key>, s: Seq<int>) -> bool {
    forall|i: int, j: int|
        0 <= i < j < s.len() ==> le_key(#[trigger] keys[s[i]], #[trigger] keys[s[j]])
}

proof fn lemma_key_total(a: Key, b: Key, c: Key)
    requires
        a.den > 0,
        b.den > 0,
        c.den > 0,
    ensures
        le_key(a, b) || le_key(b, a),
        le_key(a, b) && le_key(b, c) ==> le_key(a, c),
{
    if le_key(a, b) && le_key(b, c) {
        let (an, ad) = (a.num as int, a.den as int);
        let (bn, bd) = (b.num as int, b.den as int);
        let (cn, cd) = (c.num as int, c.den as int);
        assert(an * cd <= cn * ad) by (nonlinear_arith)
            requires
                an * bd <= bn * ad,
                bn * cd <= cn * bd,
                ad > 0,
                bd > 0,
                cd > 0,
        {
            assert((an * bd) * cd <= (bn * ad) * cd);
            assert((bn * cd) * ad <= (cn * bd) * ad);
            assert((an * cd) * bd <= (cn * ad) * bd);
        }
    }
}

proof fn lemma_put(keys: Seq<Key>, s: Seq<int>, x: int, n: int)
    requires
        forall|i: int| 0 <= i < keys.len() ==> (#[trigger] keys[i]).den > 0,
        n <= keys.len(),
        0 <= x < n,
        s.no_duplicates(),
        forall|i: int| 0 <= i < s.len() ==> 0 <= #[trigger] s[i] < n && s[i] != x,
        along(keys, s),
    ensures
        put_place(keys, s, x).len() == s.len() + 1,
        put_place(keys, s, x).no_duplicates(),
        forall|i: int|
            0 <= i < put_place(keys, s, x).len() ==> ((#[trigger] put_place(keys, s, x)[i]) == x
                || s.contains(put_place(keys, s, x)[i])) && 0 <= put_place(keys, s, x)[i] < n,
        along(keys, put_place(keys, s, x)),
        put_place(keys, s, x).len() > 0,
    decreases s.len(),
{
    let r = put_place(keys, s, x);
    if s.len() == 0 || le_key(keys[s.last()], keys[x]) {
        assert forall|i: int, j: int| 0 <= i < j < r.len() implies le_key(
            #[trigger] keys[r[i]],
            #[trigger] keys[r[j]],
        ) by {
            if j == s.len() && i < s.len() - 1 {
                assert(le_key(keys[s[i]], keys[s[s.len() - 1]]));
                lemma_key_total(keys[s[i]], keys[s.last()], keys[x]);
            }
        }
        assert forall|i: int| 0 <= i < r.len() implies ((#[trigger] r[i]) == x || s.contains(
            r[i],
        )) && 0 <= r[i] < n by {
            if i < s.len() {
                assert(s[i] == r[i]);
            }
        }
    } else {
        let t = s.drop_last();
        let q = put_place(keys, t, x);
        assert forall|i: int| 0 <= i < t.len() implies 0 <= #[trigger] t[i] < n && t[i] != x by {
            assert(t[i] == s[i]);
        }
        assert forall|i: int, j: int| 0 <= i < j < t.len() implies le_key(
            #[trigger] keys[t[i]],
            #[trigger] keys[t[j]],
        ) by {
            assert(le_key(keys[s[i]], keys[s[j]]));
        }
        lemma_put(keys, t, x, n);
        assert(r == q.push(s.last()));
        lemma_key_total(keys[x], keys[s.last()], keys[x]);
        assert forall|i: int| 0 <= i < q.len() implies le_key(
            #[trigger] keys[q[i]],
            keys[s.last()],
        ) && q[i] != s.last() by {
            if q[i] != x {
                let k = choose|k: int| 0 <= k < t.len() && t[k] == q[i];
                assert(s[k] == q[i]);
                assert(le_key(keys[s[k]], keys[s[s.len() - 1]]));
                assert(s[k] != s[s.len() - 1]);
            } else {
                assert(s[s.len() - 1] != x);
            }
        }
        assert forall|i: int| 0 <= i < r.len() implies ((#[trigger] r[i]) == x || s.contains(
            r[i],
        )) && 0 <= r[i] < n by {
            if i < q.len() {
                assert(r[i] == q[i]);
                if q[i] != x {
                    let k = choose|k: int| 0 <= k < t.len() && t[k] == q[i];
                    assert(s[k] == q[i]);
                }
            } else {
                assert(s[s.len() - 1] == r[i]);
            }
        }
        assert forall|i: int, j: int| 0 <= i < j < r.len() implies le_key(
            #[trigger] keys[r[i]],
            #[trigger] keys[r[j]],
        ) by {
            if j < q.len() {
                assert(le_key(keys[q[i]], keys[q[j]]));
            } else {
                assert(le_key(keys[q[i]], keys[s.last()]));
            }
        }
    }
}

/// Sorting by key leaves nothing out, repeats nothing, and does not descend.
pub proof fn law_by_key(keys: Seq<Key>, n: int)
    requires
        0 <= n <= keys.len(),
        forall|i: int| 0 <= i < keys.len() ==> (#[trigger] keys[i]).den > 0,
    ensures
        is_order(by_key(keys, n), n),
        along(keys, by_key(keys, n)),
    decreases n,
{
    if n > 0 {
        law_by_key(keys, n - 1);
        lemma_put(keys, by_key(keys, n - 1), n - 1, n);
    }
}

proof fn lemma_put_at(keys: Seq<Key>, s: Seq<int>, x: int, k: int)
    requires
        0 <= k <= s.len(),
        k > 0 ==> le_key(keys[s[k - 1]], keys[x]),
        forall|i: int| k <= i < s.len() ==> !le_key(keys[#[trigger] s[i]], keys[x]),
    ensures
        put_place(keys, s, x) == s.insert(k, x),
    decreases s.len(),
{
    if k == s.len() {
        assert(s.insert(k, x) =~= s.push(x));
    } else {
        assert(!le_key(keys[s[s.len() - 1]], keys[x]));
        let t = s.drop_last();
        lemma_put_at(keys, t, x, k);
        assert(s.insert(k, x) =~= t.insert(k, x).push(s.last()));
    }
}

fn sort_places(keys: &Vec<Key>) -> (r: Vec<usize>)
    requires
        forall|i: int| 0 <= i < keys@.len() ==> (#[trigger] keys@[i]).den > 0,
    ensures
        places(r@) == by_key(keys@, keys@.len() as int),
        is_order(places(r@), keys@.len() as int),
{
    let mut out: Vec<usize> = Vec::new();
    let n: usize = keys.len();
    let mut i: usize = 0;
    proof {
        assert(places(out@) =~= Seq::<int>::empty());
    }
    while i < n
        invariant
            i <= n == keys@.len(),
            forall|i: int| 0 <= i < keys@.len() ==> (#[trigger] keys@[i]).den > 0,
            places(out@) == by_key(keys@, i as int),
        decreases n - i,
    {
        let ghost had = places(out@);
        proof {
            law_by_key(keys@, i as int);
        }
        let mut k: usize = out.len();
        while k > 0
            invariant_except_break
                k <= out@.len(),
                i < keys@.len(),
                had == places(out@),
                forall|j: int| 0 <= j < had.len() ==> 0 <= #[trigger] had[j] < keys@.len(),
                forall|j: int|
                    k <= j < had.len() ==> !le_key(keys@[#[trigger] had[j]], keys@[i as int]),
            ensures
                k <= out@.len(),
                had == places(out@),
                k > 0 ==> le_key(keys@[had[k - 1]], keys@[i as int]),
                forall|j: int|
                    k <= j < had.len() ==> !le_key(keys@[#[trigger] had[j]], keys@[i as int]),
            decreases k,
        {
            proof {
                assert(had[k - 1] == out@[k - 1]);
            }
            if key_le(keys[out[k - 1]], keys[i]) {
                break;
            }
            k = k - 1;
        }
        out.insert(k, i);
        proof {
            lemma_put_at(keys@, had, i as int, k as int);
            assert(places(out@) =~= had.insert(k as int, i as int));
        }
        i = i + 1;
    }
    proof {
        law_by_key(keys@, n as int);
    }
    out
}

/// Boxes in the order of places.
pub open spec fn picked(b: Seq<TextBox>, s: Seq<int>) -> Seq<TextBox> {
    s.map_values(|i: int| b[i])
}

/// By how high the middles of boxes are.
pub open spec fn middle_keys(b: Seq<TextBox>) -> Seq<Key> {
    b.map_values(|x: TextBox| Key { num: (x.y0 + x.y1) as u64, den: 1 })
}

/// By how far left boxes start.
pub open spec fn left_keys(b: Seq<TextBox>) -> Seq<Key> {
    b.map_values(|x: TextBox| Key { num: x.x0 as u64, den: 1 })
}

/// A box joins a row whose first box is `r` when the middles are within half the lower height.
pub open spec fn joins(r: TextBox, b: TextBox) -> bool {
    let d = (b.y0 + b.y1) - (r.y0 + r.y1);
    let h = raster::smaller(r.y1 - r.y0, b.y1 - b.y0);
    -h <= d <= h
}

/// Where the rows of the first `n` boxes start, from top to bottom.
pub open spec fn row_starts(b: Seq<TextBox>, n: int) -> Seq<int>
    decreases n,
{
    if n <= 0 {
        Seq::empty()
    } else {
        let rest = row_starts(b, n - 1);
        if rest.len() > 0 && joins(b[rest.last()], b[n - 1]) {
            rest
        } else {
            rest.push(n - 1)
        }
    }
}

/// Where row `k` ends.
pub open spec fn row_end(starts: Seq<int>, k: int, n: int) -> int {
    if k + 1 < starts.len() {
        starts[k + 1]
    } else {
        n
    }
}

/// The first `k` rows, each from left to right.
pub open spec fn rows_across(b: Seq<TextBox>, starts: Seq<int>, k: int) -> Seq<TextBox>
    decreases k,
{
    if k <= 0 {
        Seq::empty()
    } else {
        let row = b.subrange(starts[k - 1], row_end(starts, k - 1, b.len() as int));
        rows_across(b, starts, k - 1) + picked(row, by_key(left_keys(row), row.len() as int))
    }
}

/// Boxes from top to bottom.
pub open spec fn downwards(b: Seq<TextBox>) -> Seq<TextBox> {
    picked(b, by_key(middle_keys(b), b.len() as int))
}

/// Boxes in reading order: rows from top to bottom, each from left to right.
pub open spec fn reading(b: Seq<TextBox>) -> Seq<TextBox> {
    let d = downwards(b);
    let starts = row_starts(d, d.len() as int);
    rows_across(d, starts, starts.len() as int)
}

proof fn lemma_starts(b: Seq<TextBox>, n: int)
    requires
        0 <= n <= b.len(),
    ensures
        forall|k: int|
            0 <= k < row_starts(b, n).len() ==> 0 <= #[trigger] row_starts(b, n)[k] < n,
        forall|i: int, j: int|
            0 <= i < j < row_starts(b, n).len() ==> (#[trigger] row_starts(b, n)[i]) < (
            #[trigger] row_starts(b, n)[j]),
        n > 0 ==> row_starts(b, n).len() > 0 && row_starts(b, n)[0] == 0,
    decreases n,
{
    if n > 0 {
        lemma_starts(b, n - 1);
        let rest = row_starts(b, n - 1);
        let r = row_starts(b, n);
        assert forall|i: int, j: int| 0 <= i < j < r.len() implies (#[trigger] r[i]) < (
        #[trigger] r[j]) by {
            if j < rest.len() {
                assert(rest[i] < rest[j]);
            } else {
                assert(rest[i] < n - 1);
            }
        }
        if rest.len() > 0 {
            assert(r[0] == rest[0]);
        }
    }
}

fn sort_boxes(b: &Vec<TextBox>, from: usize, to: usize, down: bool) -> (r: Vec<TextBox>)
    requires
        from <= to <= b@.len(),
    ensures
        ({
            let row = b@.subrange(from as int, to as int);
            r@ == picked(
                row,
                by_key(
                    if down {
                        middle_keys(row)
                    } else {
                        left_keys(row)
                    },
                    row.len() as int,
                ),
            )
        }),
{
    let ghost row = b@.subrange(from as int, to as int);
    let ghost ks = if down {
        middle_keys(row)
    } else {
        left_keys(row)
    };
    let mut keys: Vec<Key> = Vec::new();
    let mut i: usize = from;
    while i < to
        invariant
            from <= i <= to <= b@.len(),
            row == b@.subrange(from as int, to as int),
            ks == (if down {
                middle_keys(row)
            } else {
                left_keys(row)
            }),
            keys@.len() == i - from,
            forall|k: int|
                0 <= k < keys@.len() ==> #[trigger] keys@[k] == ks[k] && keys@[k].den > 0,
        decreases to - i,
    {
        let x = b[i];
        proof {
            assert(row[i - from] == x);
        }
        let num: u64 = if down {
            x.y0 as u64 + x.y1 as u64
        } else {
            x.x0 as u64
        };
        keys.push(Key { num, den: 1 });
        i = i + 1;
    }
    proof {
        assert(keys@ =~= ks);
    }
    let order = sort_places(&keys);
    let mut out: Vec<TextBox> = Vec::new();
    let mut k: usize = 0;
    while k < order.len()
        invariant
            k <= order@.len(),
            from <= to <= b@.len(),
            row == b@.subrange(from as int, to as int),
            is_order(places(order@), to - from),
            out@ == picked(row, places(order@).take(k as int)),
        decreases order@.len() - k,
    {
        let at: usize = order[k];
        proof {
            assert(places(order@)[k as int] == at);
            assert(row[at as int] == b@[from + at]);
        }
        out.push(b[from + at]);
        proof {
            assert(out@ =~= picked(row, places(order@).take(k + 1)));
        }
        k = k + 1;
    }
    proof {
        assert(places(order@).take(k as int) =~= places(order@));
    }
    out
}

/// Boxes in reading order: by the height of their middles, gathered into rows, and each row by
/// where its boxes start.
pub fn reading_order(boxes: &Vec<TextBox>) -> (r: Vec<TextBox>)
    requires
        forall|i: int| 0 <= i < boxes@.len() ==> (#[trigger] boxes@[i]).y0 <= boxes@[i].y1,
    ensures
        r@ == reading(boxes@),
{
    let n: usize = boxes.len();
    let d = sort_boxes(boxes, 0, n, true);
    proof {
        assert(boxes@.subrange(0, n as int) =~= boxes@);
        law_by_key(middle_keys(boxes@), n as int);
        assert forall|i: int| 0 <= i < d@.len() implies (#[trigger] d@[i]).y0 <= d@[i].y1 by {
            let k = by_key(middle_keys(boxes@), n as int)[i];
            assert(d@[i] == boxes@[k]);
        }
    }
    let mut starts: Vec<usize> = Vec::new();
    let mut i: usize = 0;
    proof {
        assert(places(starts@) =~= Seq::<int>::empty());
    }
    while i < n
        invariant
            i <= n == d@.len(),
            forall|i: int| 0 <= i < d@.len() ==> (#[trigger] d@[i]).y0 <= d@[i].y1,
            places(starts@) == row_starts(d@, i as int),
        decreases n - i,
    {
        let mut joined: bool = false;
        let m: usize = starts.len();
        let ghost had = places(starts@);
        proof {
            lemma_starts(d@, i as int);
        }
        if m > 0 {
            proof {
                assert(had[m - 1] == starts@[m - 1]);
                assert(had.last() == starts@[m - 1]);
            }
            let r = d[starts[m - 1]];
            let b = d[i];
            let mid_r: u64 = r.y0 as u64 + r.y1 as u64;
            let mid_b: u64 = b.y0 as u64 + b.y1 as u64;
            let apart: u64 = if mid_r < mid_b {
                mid_b - mid_r
            } else {
                mid_r - mid_b
            };
            let hr: u32 = r.y1 - r.y0;
            let hb: u32 = b.y1 - b.y0;
            let least: u32 = if hr < hb {
                hr
            } else {
                hb
            };
            joined = apart <= least as u64;
        }
        if !joined {
            starts.push(i);
            proof {
                assert(places(starts@) =~= had.push(i as int));
            }
        }
        i = i + 1;
    }
    let ghost st = places(starts@);
    proof {
        lemma_starts(d@, n as int);
    }
    let mut out: Vec<TextBox> = Vec::new();
    let m: usize = starts.len();
    let mut k: usize = 0;
    while k < m
        invariant
            k <= m == starts@.len(),
            n == d@.len(),
            st == places(starts@),
            forall|k: int| 0 <= k < st.len() ==> 0 <= #[trigger] st[k] < n,
            forall|i: int, j: int|
                0 <= i < j < st.len() ==> (#[trigger] st[i]) < (#[trigger] st[j]),
            out@ == rows_across(d@, st, k as int),
        decreases m - k,
    {
        proof {
            assert(st[k as int] == starts@[k as int]);
            if k + 1 < m {
                assert(st[k + 1] == starts@[k + 1]);
                assert(st[k as int] < st[k + 1]);
            }
        }
        let from: usize = starts[k];
        let to: usize = if k < m - 1 {
            starts[k + 1]
        } else {
            n
        };
        let mut row = sort_boxes(&d, from, to, false);
        out.append(&mut row);
        k = k + 1;
    }
    out
}

proof fn lemma_put_keeps(b: Seq<TextBox>, keys: Seq<Key>, s: Seq<int>, x: int)
    ensures
        picked(b, put_place(keys, s, x)).to_multiset() =~= picked(b, s).to_multiset().insert(b[x]),
    decreases s.len(),
{
    broadcast use vstd::seq_lib::group_to_multiset_ensures;

    if s.len() == 0 || le_key(keys[s.last()], keys[x]) {
        assert(picked(b, s.push(x)) =~= picked(b, s).push(b[x]));
    } else {
        let t = s.drop_last();
        lemma_put_keeps(b, keys, t, x);
        let q = put_place(keys, t, x);
        assert(picked(b, q.push(s.last())) =~= picked(b, q).push(b[s.last()]));
        assert(picked(b, s) =~= picked(b, t).push(b[s.last()]));
    }
}

proof fn lemma_by_key_keeps(b: Seq<TextBox>, keys: Seq<Key>, n: int)
    requires
        0 <= n <= b.len(),
    ensures
        picked(b, by_key(keys, n)).to_multiset() =~= b.take(n).to_multiset(),
    decreases n,
{
    broadcast use vstd::seq_lib::group_to_multiset_ensures;

    if n > 0 {
        lemma_by_key_keeps(b, keys, n - 1);
        lemma_put_keeps(b, keys, by_key(keys, n - 1), n - 1);
        assert(b.take(n) =~= b.take(n - 1).push(b[n - 1]));
    } else {
        assert(picked(b, by_key(keys, n)) =~= b.take(0));
    }
}

proof fn lemma_rows_keep(b: Seq<TextBox>, starts: Seq<int>, k: int)
    requires
        0 <= k <= starts.len(),
        starts.len() > 0 ==> starts[0] == 0,
        forall|i: int| 0 <= i < starts.len() ==> 0 <= #[trigger] starts[i] < b.len(),
        forall|i: int, j: int|
            0 <= i < j < starts.len() ==> (#[trigger] starts[i]) < (#[trigger] starts[j]),
    ensures
        k > 0 ==> rows_across(b, starts, k).to_multiset() =~= b.take(
            row_end(starts, k - 1, b.len() as int),
        ).to_multiset(),
    decreases k,
{
    broadcast use vstd::seq_lib::group_to_multiset_ensures;

    if k > 0 {
        lemma_rows_keep(b, starts, k - 1);
        let from = starts[k - 1];
        let to = row_end(starts, k - 1, b.len() as int);
        if k < starts.len() {
            assert(starts[k - 1] < starts[k]);
        }
        let row = b.subrange(from, to);
        let across = picked(row, by_key(left_keys(row), row.len() as int));
        lemma_by_key_keeps(row, left_keys(row), row.len() as int);
        assert(row.take(row.len() as int) =~= row);
        vstd::seq_lib::lemma_multiset_commutative(rows_across(b, starts, k - 1), across);
        vstd::seq_lib::lemma_multiset_commutative(b.take(from), row);
        assert(b.take(from) + row =~= b.take(to));
        if k == 1 {
            assert(rows_across(b, starts, 0) =~= b.take(0));
        }
    }
}

/// Reading order leaves no box out and repeats none.
pub proof fn law_reading_keeps_boxes(b: Seq<TextBox>)
    ensures
        reading(b).to_multiset() =~= b.to_multiset(),
{
    let n = b.len() as int;
    let d = downwards(b);
    law_by_key(middle_keys(b), n);
    lemma_by_key_keeps(b, middle_keys(b), n);
    assert(b.take(n) =~= b);
    let starts = row_starts(d, d.len() as int);
    lemma_starts(d, d.len() as int);
    lemma_rows_keep(d, starts, starts.len() as int);
    if n > 0 {
        assert(d.take(n) =~= d);
    } else {
        assert(reading(b) =~= b);
    }
}

/// Places whose keys are equal are in their order.
pub open spec fn stable(keys: Seq<Key>, s: Seq<int>) -> bool {
    forall|i: int, j: int|
        0 <= i < j < s.len() && le_key(keys[s[j]], keys[s[i]]) ==> #[trigger] s[i] < #[trigger] s[j]
}

proof fn lemma_put_stable(keys: Seq<Key>, s: Seq<int>, x: int)
    requires
        forall|i: int| 0 <= i < s.len() ==> #[trigger] s[i] < x,
        stable(keys, s),
    ensures
        stable(keys, put_place(keys, s, x)),
        forall|y: int| #[trigger] put_place(keys, s, x).contains(y) ==> y == x || s.contains(y),
    decreases s.len(),
{
    let r = put_place(keys, s, x);
    if s.len() == 0 || le_key(keys[s.last()], keys[x]) {
        assert(r == s.push(x));
        assert forall|i: int, j: int|
            0 <= i < j < r.len() && le_key(keys[r[j]], keys[r[i]]) implies #[trigger] r[i]
            < #[trigger] r[j] by {
            assert(r[i] == s[i]);
            if j < s.len() {
                assert(r[j] == s[j]);
            }
        }
        assert forall|y: int| #[trigger] r.contains(y) implies y == x || s.contains(y) by {
            let i = choose|i: int| 0 <= i < r.len() && r[i] == y;
            if i < s.len() {
                assert(s[i] == y);
            }
        }
    } else {
        let t = s.drop_last();
        assert forall|i: int| 0 <= i < t.len() implies #[trigger] t[i] < x by {
            assert(t[i] == s[i]);
        }
        assert forall|i: int, j: int|
            0 <= i < j < t.len() && le_key(keys[t[j]], keys[t[i]]) implies #[trigger] t[i]
            < #[trigger] t[j] by {
            assert(t[i] == s[i] && t[j] == s[j]);
        }
        lemma_put_stable(keys, t, x);
        let q = put_place(keys, t, x);
        assert(r == q.push(s.last()));
        assert forall|i: int, j: int|
            0 <= i < j < r.len() && le_key(keys[r[j]], keys[r[i]]) implies #[trigger] r[i]
            < #[trigger] r[j] by {
            assert(r[i] == q[i]);
            if j < q.len() {
                assert(r[j] == q[j]);
            } else {
                assert(q.contains(q[i]));
                if q[i] != x {
                    let k = choose|k: int| 0 <= k < t.len() && t[k] == q[i];
                    assert(s[k] == q[i] && s[s.len() - 1] == r[j]);
                }
            }
        }
        assert forall|y: int| #[trigger] r.contains(y) implies y == x || s.contains(y) by {
            let i = choose|i: int| 0 <= i < r.len() && r[i] == y;
            if i < q.len() {
                assert(q[i] == y);
                assert(q.contains(y));
                if y != x {
                    let k = choose|k: int| 0 <= k < t.len() && t[k] == y;
                    assert(s[k] == y);
                }
            } else {
                assert(s[s.len() - 1] == y);
            }
        }
    }
}

/// Sorting by key keeps the order of what has equal keys.
pub proof fn law_by_key_is_stable(keys: Seq<Key>, n: int)
    requires
        n >= 0,
    ensures
        stable(keys, by_key(keys, n)),
        forall|y: int| #[trigger] by_key(keys, n).contains(y) ==> 0 <= y < n,
    decreases n,
{
    if n > 0 {
        law_by_key_is_stable(keys, n - 1);
        let s = by_key(keys, n - 1);
        assert forall|i: int| 0 <= i < s.len() implies #[trigger] s[i] < n - 1 by {
            assert(s.contains(s[i]));
        }
        lemma_put_stable(keys, s, n - 1);
    }
}

/// Two boxes are on one line: the distance of their middles is at most half of the lower height.
pub open spec fn on_one_line(a: TextBox, b: TextBox) -> bool {
    let d = (a.y0 + a.y1) - (b.y0 + b.y1);
    &&& d <= a.y1 - a.y0 && d <= b.y1 - b.y0
    &&& -d <= a.y1 - a.y0 && -d <= b.y1 - b.y0
}

proof fn lemma_whole_keys(a: Key, b: Key)
    requires
        a.den == 1,
        b.den == 1,
    ensures
        le_key(a, b) <==> a.num <= b.num,
{
    assert(a.num * 1 == a.num && b.num * 1 == b.num);
}

proof fn lemma_downwards(b: Seq<TextBox>)
    ensures
        downwards(b).len() == b.len(),
        forall|i: int, j: int|
            0 <= i < j < b.len() ==> (#[trigger] downwards(b)[i]).y0 + downwards(b)[i].y1 <= (
            #[trigger] downwards(b)[j]).y0 + downwards(b)[j].y1,
        is_order(by_key(middle_keys(b), b.len() as int), b.len() as int),
{
    let n = b.len() as int;
    let keys = middle_keys(b);
    law_by_key(keys, n);
    let s = by_key(keys, n);
    let d = downwards(b);
    assert forall|i: int, j: int| 0 <= i < j < b.len() implies (#[trigger] d[i]).y0 + d[i].y1 <= (
    #[trigger] d[j]).y0 + d[j].y1 by {
        assert(le_key(keys[s[i]], keys[s[j]]));
        assert(keys[s[i]].num == (b[s[i]].y0 + b[s[i]].y1) as u64);
        assert(keys[s[j]].num == (b[s[j]].y0 + b[s[j]].y1) as u64);
        lemma_whole_keys(keys[s[i]], keys[s[j]]);
    }
}

proof fn lemma_one_row(d: Seq<TextBox>, n: int)
    requires
        0 <= n <= d.len(),
        forall|i: int, j: int|
            0 <= i < d.len() && 0 <= j < d.len() ==> on_one_line(#[trigger] d[i], #[trigger] d[j]),
    ensures
        n > 0 ==> row_starts(d, n) == seq![0int],
        n == 0 ==> row_starts(d, n) == Seq::<int>::empty(),
    decreases n,
{
    if n > 0 {
        lemma_one_row(d, n - 1);
        if n > 1 {
            assert(on_one_line(d[0], d[n - 1]));
            assert(joins(d[0], d[n - 1]));
        } else {
            assert(row_starts(d, 1) =~= seq![0int]);
        }
    }
}

/// The boxes of one line are read from left to right.
pub proof fn law_lines_are_read_from_left_to_right(b: Seq<TextBox>, i: int, j: int)
    requires
        forall|i: int, j: int|
            0 <= i < b.len() && 0 <= j < b.len() ==> on_one_line(#[trigger] b[i], #[trigger] b[j]),
        0 <= i < j < b.len(),
    ensures
        reading(b).len() == b.len(),
        reading(b)[i].x0 <= reading(b)[j].x0,
{
    let n = b.len() as int;
    let d = downwards(b);
    lemma_downwards(b);
    assert forall|i: int, j: int| 0 <= i < d.len() && 0 <= j < d.len() implies on_one_line(
        #[trigger] d[i],
        #[trigger] d[j],
    ) by {
        let s = by_key(middle_keys(b), n);
        assert(on_one_line(b[s[i]], b[s[j]]));
    }
    lemma_one_row(d, n);
    let starts = row_starts(d, n);
    let row = d.subrange(0, n);
    assert(row =~= d);
    reveal_with_fuel(rows_across, 2);
    let keys = left_keys(d);
    law_by_key(keys, n);
    let s = by_key(keys, n);
    assert(reading(b) =~= picked(d, s));
    assert(le_key(keys[s[i]], keys[s[j]]));
    assert(keys[s[i]].num == d[s[i]].x0 && keys[s[j]].num == d[s[j]].x0);
    lemma_whole_keys(keys[s[i]], keys[s[j]]);
}

proof fn lemma_single_rows(d: Seq<TextBox>, n: int)
    requires
        0 <= n <= d.len(),
        forall|i: int, j: int|
            0 <= i < j < d.len() ==> !on_one_line(#[trigger] d[i], #[trigger] d[j]),
    ensures
        row_starts(d, n).len() == n,
        forall|k: int| 0 <= k < n ==> #[trigger] row_starts(d, n)[k] == k,
    decreases n,
{
    if n > 0 {
        lemma_single_rows(d, n - 1);
        if n > 1 {
            let rest = row_starts(d, n - 1);
            assert(rest[n - 2] == n - 2);
            assert(!on_one_line(d[n - 2], d[n - 1]));
            assert(!joins(d[n - 2], d[n - 1]));
        }
    }
}

proof fn lemma_single_rows_across(d: Seq<TextBox>, starts: Seq<int>, k: int)
    requires
        starts.len() == d.len(),
        forall|k: int| 0 <= k < starts.len() ==> #[trigger] starts[k] == k,
        0 <= k <= d.len(),
    ensures
        rows_across(d, starts, k) == d.take(k),
    decreases k,
{
    if k > 0 {
        lemma_single_rows_across(d, starts, k - 1);
        assert(starts[k - 1] == k - 1);
        if k < starts.len() {
            assert(starts[k] == k);
        }
        let row = d.subrange(k - 1, k);
        reveal_with_fuel(by_key, 2);
        assert(put_place(left_keys(row), Seq::empty(), 0) =~= seq![0int]);
        assert(by_key(left_keys(row), 1) =~= seq![0int]);
        assert(picked(row, seq![0int]) =~= seq![d[k - 1]]);
        assert(d.take(k - 1) + seq![d[k - 1]] =~= d.take(k));
    } else {
        assert(d.take(0) =~= Seq::<TextBox>::empty());
    }
}

/// Boxes no two of which are on one line are read from top to bottom.
pub proof fn law_lines_are_read_from_top_to_bottom(b: Seq<TextBox>, i: int, j: int)
    requires
        forall|i: int, j: int|
            0 <= i < b.len() && 0 <= j < b.len() && i != j ==> !on_one_line(
                #[trigger] b[i],
                #[trigger] b[j],
            ),
        0 <= i < j < b.len(),
    ensures
        reading(b).len() == b.len(),
        reading(b)[i].y0 + reading(b)[i].y1 <= reading(b)[j].y0 + reading(b)[j].y1,
{
    let n = b.len() as int;
    let d = downwards(b);
    lemma_downwards(b);
    assert forall|i: int, j: int| 0 <= i < j < d.len() implies !on_one_line(
        #[trigger] d[i],
        #[trigger] d[j],
    ) by {
        let s = by_key(middle_keys(b), n);
        assert(s[i] != s[j]);
        assert(!on_one_line(b[s[i]], b[s[j]]));
    }
    lemma_single_rows(d, n);
    lemma_single_rows_across(d, row_starts(d, n), n);
    assert(d.take(n) =~= d);
}

/// The size of one side of what the detector sees: scaled down so that the longer side is at
/// most `max_side`, and a multiple of 32.
pub open spec fn detector_side(side: int, longer: int, max_side: int) -> int {
    let blocks = if longer <= max_side {
        (2 * side + 32) / 64
    } else {
        (2 * side * max_side + 32 * longer) / (64 * longer)
    };
    raster::larger(raster::smaller(blocks, max_side / 32), 1) * 32
}

fn side_for_detector(side: u32, longer: u32, max_side: u32) -> (r: u32)
    requires
        side <= longer,
        longer > 0,
    ensures
        r == detector_side(side as int, longer as int, max_side as int),
        r % 32 == 0,
        r <= max_side || r == 32,
{
    let blocks: u128 = if longer <= max_side {
        (2 * (side as u128) + 32) / 64
    } else {
        proof {
            assert(0 <= 2 * side * max_side <= 2 * 0xffff_ffff * 0xffff_ffff) by (nonlinear_arith)
                requires
                    0 <= side <= 0xffff_ffff,
                    0 <= max_side <= 0xffff_ffff,
            ;
            let (n, e) = (2 * side * max_side + 32 * longer, 64 * longer);
            assert(0 <= n / e <= n) by (nonlinear_arith)
                requires
                    0 <= n,
                    1 <= e,
            ;
        }
        (2 * (side as u128) * (max_side as u128) + 32 * (longer as u128)) / (64 * (longer as u128))
    };
    let most: u128 = (max_side / 32) as u128;
    let held: u128 = if blocks < most {
        blocks
    } else {
        most
    };
    if held < 1 {
        32
    } else {
        (held * 32) as u32
    }
}

/// The size at which the detector sees an image: both sides are multiples of 32, and the longest
/// side is at most `max_side`, unless it is a single block.
pub fn detector_size(width: u32, height: u32, max_side: u32) -> (r: (u32, u32))
    requires
        width > 0 || height > 0,
    ensures
        ({
            let longer = raster::larger(width as int, height as int);
            &&& r.0 == detector_side(width as int, longer, max_side as int)
            &&& r.1 == detector_side(height as int, longer, max_side as int)
        }),
        r.0 % 32 == 0 && r.1 % 32 == 0,
        r.0 <= max_side || r.0 == 32,
        r.1 <= max_side || r.1 == 32,
{
    let longer: u32 = if width < height {
        height
    } else {
        width
    };
    (
        side_for_detector(width, longer, max_side),
        side_for_detector(height, longer, max_side),
    )
}

/// A lower edge on the image, from a map of `cells` cells.
pub open spec fn edge_down(e: int, side: int, cells: int) -> int {
    raster::smaller((e * side) / cells, side - 1)
}

/// An upper edge on the image.
pub open spec fn edge_up(e: int, side: int, cells: int) -> int {
    raster::smaller(raster::larger((e * side + cells - 1) / cells, 1), side)
}

/// A box of a map on the image.
pub open spec fn on_image(b: TextBox, pw: int, ph: int, width: int, height: int) -> (
    int,
    int,
    int,
    int,
    int,
) {
    (
        edge_down(b.x0 as int, width, pw),
        edge_down(b.y0 as int, height, ph),
        edge_up(b.x1 as int, width, pw),
        edge_up(b.y1 as int, height, ph),
        b.score as int,
    )
}

/// The boxes of the first `n` that are more than two pixels wide and high on the image.
pub open spec fn on_image_all(b: Seq<TextBox>, pw: int, ph: int, width: int, height: int, n: int) -> Seq<
    (int, int, int, int, int),
>
    decreases n,
{
    if n <= 0 {
        Seq::empty()
    } else {
        let rest = on_image_all(b, pw, ph, width, height, n - 1);
        let x = on_image(b[n - 1], pw, ph, width, height);
        if x.2 > x.0 + 2 && x.3 > x.1 + 2 {
            rest.push(x)
        } else {
            rest
        }
    }
}

fn scale_edge(e: u32, side: u32, cells: usize, up: bool) -> (r: u32)
    requires
        side > 0,
        cells > 0,
    ensures
        r == (if up {
            edge_up(e as int, side as int, cells as int)
        } else {
            edge_down(e as int, side as int, cells as int)
        }),
        r <= side,
        !up ==> r < side,
{
    let c: u128 = cells as u128;
    proof {
        assert(0 <= e * side <= 0xffff_ffff * 0xffff_ffff) by (nonlinear_arith)
            requires
                0 <= e <= 0xffff_ffff,
                0 <= side <= 0xffff_ffff,
        ;
        let (n, k) = (e * side, cells as int);
        assert(0 <= n / k) by (nonlinear_arith)
            requires
                0 <= n,
                1 <= k,
        ;
    }
    let n: u128 = (e as u128) * (side as u128);
    if up {
        let x: u128 = (n + c - 1) / c;
        if x < 1 {
            1
        } else if x < side as u128 {
            x as u32
        } else {
            side
        }
    } else {
        let x: u128 = n / c;
        if x < (side - 1) as u128 {
            x as u32
        } else {
            side - 1
        }
    }
}

/// Boxes of a map of `pw` by `ph` cells on an image; what is too small is left out.
pub fn to_image(boxes: &Vec<TextBox>, pw: usize, ph: usize, width: u32, height: u32) -> (r: Vec<
    TextBox,
>)
    requires
        pw > 0,
        ph > 0,
        width > 0,
        height > 0,
    ensures
        ocr::box_views(r@) == on_image_all(
            boxes@,
            pw as int,
            ph as int,
            width as int,
            height as int,
            boxes@.len() as int,
        ),
        forall|i: int|
            0 <= i < r@.len() ==> (#[trigger] r@[i]).x0 < r@[i].x1 <= width && r@[i].y0 < r@[i].y1
                <= height,
{
    let mut out: Vec<TextBox> = Vec::new();
    let mut i: usize = 0;
    proof {
        assert(ocr::box_views(out@) =~= Seq::<(int, int, int, int, int)>::empty());
    }
    while i < boxes.len()
        invariant
            i <= boxes@.len(),
            pw > 0,
            ph > 0,
            width > 0,
            height > 0,
            ocr::box_views(out@) == on_image_all(
                boxes@,
                pw as int,
                ph as int,
                width as int,
                height as int,
                i as int,
            ),
            forall|i: int|
                0 <= i < out@.len() ==> (#[trigger] out@[i]).x0 < out@[i].x1 <= width
                    && out@[i].y0 < out@[i].y1 <= height,
        decreases boxes@.len() - i,
    {
        let b = boxes[i];
        let x = TextBox {
            x0: scale_edge(b.x0, width, pw, false),
            y0: scale_edge(b.y0, height, ph, false),
            x1: scale_edge(b.x1, width, pw, true),
            y1: scale_edge(b.y1, height, ph, true),
            score: b.score,
        };
        if x.x1 as u64 > x.x0 as u64 + 2 && x.y1 as u64 > x.y0 as u64 + 2 {
            let ghost had = ocr::box_views(out@);
            out.push(x);
            proof {
                assert(ocr::box_views(out@) =~= had.push(
                    (x.x0 as int, x.y0 as int, x.x1 as int, x.y1 as int, x.score as int),
                ));
            }
        }
        i = i + 1;
    }
    out
}

/// A box lies on an image and is not empty.
pub open spec fn lies_on(b: TextBox, width: int, height: int) -> bool {
    b.x0 < b.x1 <= width && b.y0 < b.y1 <= height
}

/// By how wide boxes are for their height.
pub open spec fn shape_keys(b: Seq<TextBox>) -> Seq<Key> {
    b.map_values(|x: TextBox| Key { num: (x.x1 - x.x0) as u64, den: (x.y1 - x.y0) as u32 })
}

/// The width at which a recogniser of height `h` sees a box.
pub open spec fn line_width(b: TextBox, h: int) -> int {
    let w = ((b.x1 - b.x0) * h + (b.y1 - b.y0) - 1) / (b.y1 - b.y0);
    raster::smaller(raster::larger(w, 16), 1600)
}

/// Boxes that are recognised together.
#[derive(Debug)]
pub struct LineBatch {
    /// Which boxes, with the width of each.
    pub items: Vec<(usize, u32)>,
    /// The widest.
    pub width: u32,
}

/// The widest of the first `n` items; 16 at least.
pub open spec fn widest(s: Seq<(usize, u32)>, n: int) -> int
    decreases n,
{
    if n <= 0 {
        16
    } else {
        raster::larger(widest(s, n - 1), s[n - 1].1 as int)
    }
}

/// Batch `k` of boxes in the given order: eight at most.
pub open spec fn is_batch(r: LineBatch, b: Seq<TextBox>, order: Seq<int>, h: int, k: int) -> bool {
    let (from, to) = batch::chunk(b.len() as int, 8, k);
    &&& r.items@.len() == to - from
    &&& forall|j: int|
        0 <= j < r.items@.len() ==> (#[trigger] r.items@[j]).0 == order[from + j] && r.items@[j].1
            == line_width(b[order[from + j]], h)
    &&& r.width == widest(r.items@, r.items@.len() as int)
}

fn width_of_line(b: TextBox, h: u32) -> (w: u32)
    requires
        b.x0 < b.x1,
        b.y0 < b.y1,
    ensures
        w == line_width(b, h as int),
        16 <= w <= 1600,
{
    let bw: u128 = (b.x1 - b.x0) as u128;
    let bh: u128 = (b.y1 - b.y0) as u128;
    proof {
        assert(0 <= bw * h <= 0xffff_ffff * 0xffff_ffff) by (nonlinear_arith)
            requires
                0 <= bw <= 0xffff_ffff,
                0 <= h <= 0xffff_ffff,
        ;
    }
    let w: u128 = (bw * (h as u128) + bh - 1) / bh;
    if w < 16 {
        16
    } else if w < 1600 {
        w as u32
    } else {
        1600
    }
}

/// The boxes to recognise in batches, sorted by shape so that batches pad little. An error if
/// a box does not lie on the image.
pub fn line_batches(boxes: &Vec<TextBox>, width: u32, height: u32, rec_height: u32) -> (r: Result<
    Vec<LineBatch>,
    PerceiveError,
>)
    ensures
        r is Ok <==> forall|i: int|
            0 <= i < boxes@.len() ==> lies_on(
                #[trigger] boxes@[i],
                width as int,
                height as int,
            ),
        r matches Err(e) ==> (e matches PerceiveError::Invalid(m) && m@
            == "text box outside the image"@),
        r matches Ok(v) ==> ({
            let n = boxes@.len() as int;
            &&& is_order(by_key(shape_keys(boxes@), n), n)
            &&& v@.len() * 8 >= n
            &&& v@.len() > 0 ==> (v@.len() - 1) * 8 < n
            &&& forall|k: int|
                0 <= k < v@.len() ==> is_batch(
                    #[trigger] v@[k],
                    boxes@,
                    by_key(shape_keys(boxes@), n),
                    rec_height as int,
                    k,
                )
        }),
{
    let n: usize = boxes.len();
    let mut keys: Vec<Key> = Vec::new();
    let mut i: usize = 0;
    while i < n
        invariant
            i <= n == boxes@.len(),
            keys@.len() == i,
            forall|k: int|
                0 <= k < i ==> lies_on(#[trigger] boxes@[k], width as int, height as int),
            forall|k: int|
                0 <= k < i ==> #[trigger] keys@[k] == shape_keys(boxes@)[k] && keys@[k].den > 0,
        decreases n - i,
    {
        let b = boxes[i];
        if b.x1 > width || b.y1 > height || b.x1 <= b.x0 || b.y1 <= b.y0 {
            proof {
                assert(!lies_on(boxes@[i as int], width as int, height as int));
            }
            return Err(PerceiveError::Invalid("text box outside the image".to_owned()));
        }
        keys.push(Key { num: (b.x1 - b.x0) as u64, den: b.y1 - b.y0 });
        i = i + 1;
    }
    proof {
        assert(keys@ =~= shape_keys(boxes@));
    }
    let order = sort_places(&keys);
    let ghost ord = places(order@);
    let cuts = batch::chunks(n, 8);
    let mut out: Vec<LineBatch> = Vec::new();
    let mut k: usize = 0;
    while k < cuts.len()
        invariant
            k <= cuts@.len(),
            n == boxes@.len(),
            forall|i: int|
                0 <= i < n ==> lies_on(#[trigger] boxes@[i], width as int, height as int),
            ord == places(order@),
            is_order(ord, n as int),
            batch::are_chunks(cuts@, n as int, 8),
            forall|k: int| 0 <= k < cuts@.len() ==> (#[trigger] cuts@[k]).0 < cuts@[k].1 <= n,
            out@.len() == k,
            forall|j: int|
                0 <= j < k ==> is_batch(#[trigger] out@[j], boxes@, ord, rec_height as int, j),
        decreases cuts@.len() - k,
    {
        let (from, to) = cuts[k];
        let mut items: Vec<(usize, u32)> = Vec::new();
        let mut most: u32 = 16;
        let mut j: usize = from;
        while j < to
            invariant
                from <= j <= to <= n,
                n == boxes@.len(),
                forall|i: int|
                    0 <= i < n ==> lies_on(#[trigger] boxes@[i], width as int, height as int),
                ord == places(order@),
                is_order(ord, n as int),
                items@.len() == j - from,
                forall|x: int|
                    0 <= x < items@.len() ==> (#[trigger] items@[x]).0 == ord[from + x]
                        && items@[x].1 == line_width(boxes@[ord[from + x]], rec_height as int),
                most == widest(items@, items@.len() as int),
            decreases to - j,
        {
            let at: usize = order[j];
            proof {
                assert(ord[j as int] == at);
                assert(lies_on(boxes@[at as int], width as int, height as int));
            }
            let w: u32 = width_of_line(boxes[at], rec_height);
            let ghost had = items@;
            items.push((at, w));
            proof {
                lemma_widest(had, items@, had.len() as int);
            }
            if w > most {
                most = w;
            }
            j = j + 1;
        }
        out.push(LineBatch { items, width: most });
        k = k + 1;
    }
    Ok(out)
}

proof fn lemma_widest(a: Seq<(usize, u32)>, b: Seq<(usize, u32)>, n: int)
    requires
        n <= a.len(),
        n <= b.len(),
        forall|i: int| 0 <= i < n ==> a[i] == b[i],
    ensures
        widest(a, n) == widest(b, n),
    decreases n,
{
    if n > 0 {
        lemma_widest(a, b, n - 1);
    }
}

/// The class with the greatest value among the first `n`; the first of equals.
pub open spec fn best_class(row: Seq<u32>, n: int) -> int
    decreases n,
{
    if n <= 1 {
        0
    } else {
        let b = best_class(row, n - 1);
        if row[n - 1] > row[b] {
            n - 1
        } else {
            b
        }
    }
}

/// The class of step `i` of `c` values each.
pub open spec fn step_class(steps: Seq<u32>, c: int, i: int) -> int {
    best_class(steps.subrange(i * c, (i + 1) * c), c)
}

/// Whether step `i` gives a text: not the blank, not the class of the step before, and one with
/// a text.
pub open spec fn speaks(steps: Seq<u32>, c: int, classes: int, i: int) -> bool {
    let k = step_class(steps, c, i);
    k != 0 && k != (if i == 0 {
        0
    } else {
        step_class(steps, c, i - 1)
    }) && k < classes
}

/// The text of the first `n` steps.
pub open spec fn spoken(steps: Seq<u32>, c: int, classes: Seq<Seq<char>>, n: int) -> Seq<char>
    decreases n,
{
    if n <= 0 {
        Seq::empty()
    } else if speaks(steps, c, classes.len() as int, n - 1) {
        spoken(steps, c, classes, n - 1) + classes[step_class(steps, c, n - 1)]
    } else {
        spoken(steps, c, classes, n - 1)
    }
}

/// How many of the first `n` steps give a text, and the sum of their values.
pub open spec fn certainty(steps: Seq<u32>, c: int, classes: int, n: int) -> (int, int)
    decreases n,
{
    if n <= 0 {
        (0, 0)
    } else {
        let rest = certainty(steps, c, classes, n - 1);
        if speaks(steps, c, classes, n - 1) {
            (rest.0 + 1, rest.1 + steps[(n - 1) * c + step_class(steps, c, n - 1)])
        } else {
            rest
        }
    }
}

/// A blank step and a step that repeats the class before it add nothing.
pub proof fn law_repeats_and_blanks_are_silent(
    steps: Seq<u32>,
    c: int,
    classes: Seq<Seq<char>>,
    i: int,
)
    requires
        i >= 0,
        step_class(steps, c, i) == 0 || i > 0 && step_class(steps, c, i) == step_class(
            steps,
            c,
            i - 1,
        ),
    ensures
        spoken(steps, c, classes, i + 1) == spoken(steps, c, classes, i),
        certainty(steps, c, classes.len() as int, i + 1) == certainty(
            steps,
            c,
            classes.len() as int,
            i,
        ),
{
}

/// Class `k` is the one with the greatest value at step `i`, the first of equals.
pub open spec fn is_greatest(steps: Seq<u32>, c: int, i: int, k: int) -> bool {
    &&& 0 <= k < c
    &&& forall|j: int| 0 <= j < c ==> #[trigger] steps[i * c + j] <= steps[i * c + k]
    &&& forall|j: int| 0 <= j < k ==> #[trigger] steps[i * c + j] < steps[i * c + k]
}

proof fn lemma_best_class(row: Seq<u32>, n: int)
    requires
        1 <= n <= row.len(),
    ensures
        0 <= best_class(row, n) < n,
        forall|j: int| 0 <= j < n ==> #[trigger] row[j] <= row[best_class(row, n)],
        forall|j: int|
            0 <= j < best_class(row, n) ==> #[trigger] row[j] < row[best_class(row, n)],
    decreases n,
{
    if n > 1 {
        lemma_best_class(row, n - 1);
    }
}

/// The class of a step is the one with the greatest value.
pub proof fn law_steps_take_the_greatest(steps: Seq<u32>, c: int, i: int, k: int)
    requires
        0 <= i,
        0 < c,
        i * c + c <= steps.len(),
    ensures
        step_class(steps, c, i) == k <==> is_greatest(steps, c, i, k),
{
    let at = i * c;
    assert(0 <= at && (i + 1) * c == at + c) by (nonlinear_arith)
        requires
            0 <= i,
            0 < c,
            at == i * c,
    ;
    let row = steps.subrange(at, at + c);
    lemma_best_class(row, c);
    let b = best_class(row, c);
    assert forall|j: int| 0 <= j < c implies row[j] == #[trigger] steps[at + j] by {}
    assert(row[b] == steps[at + b]);
    assert(is_greatest(steps, c, i, b)) by {
        assert forall|j: int| 0 <= j < c implies #[trigger] steps[i * c + j] <= steps[i * c + b] by {
            assert(row[j] <= row[b]);
        }
        assert forall|j: int| 0 <= j < b implies #[trigger] steps[i * c + j] < steps[i * c + b] by {
            assert(row[j] < row[b]);
        }
    }
    if is_greatest(steps, c, i, k) && k != b {
        if k < b {
            assert(steps[i * c + k] < steps[i * c + b]);
            assert(steps[i * c + b] <= steps[i * c + k]);
        } else {
            assert(steps[i * c + b] < steps[i * c + k]);
            assert(steps[i * c + k] <= steps[i * c + b]);
        }
    }
}

/// A step whose greatest value is that of a class with a text, neither the blank nor the class of
/// the step directly before it, adds that text, and its value to those that the certainty is the
/// mean of. So a class behind a blank step always speaks, also where the step before the blank
/// had the same class.
pub proof fn law_changed_classes_speak(
    steps: Seq<u32>,
    c: int,
    classes: Seq<Seq<char>>,
    i: int,
    k: int,
    before: int,
)
    requires
        0 <= i,
        0 < c,
        i * c + c <= steps.len(),
        is_greatest(steps, c, i, k),
        k != 0,
        k < classes.len(),
        i > 0 ==> is_greatest(steps, c, i - 1, before) && k != before,
    ensures
        spoken(steps, c, classes, i + 1) == spoken(steps, c, classes, i) + classes[k],
        certainty(steps, c, classes.len() as int, i + 1).0 == certainty(
            steps,
            c,
            classes.len() as int,
            i,
        ).0 + 1,
        certainty(steps, c, classes.len() as int, i + 1).1 == certainty(
            steps,
            c,
            classes.len() as int,
            i,
        ).1 + steps[i * c + k],
{
    law_steps_take_the_greatest(steps, c, i, k);
    if i > 0 {
        assert((i - 1) * c + c == i * c) by (nonlinear_arith);
        law_steps_take_the_greatest(steps, c, i - 1, before);
    }
}

/// A step whose greatest value is that of the blank, of the class of the step directly before it,
/// or of a class without a text adds nothing.
pub proof fn law_unchanged_classes_are_silent(
    steps: Seq<u32>,
    c: int,
    classes: Seq<Seq<char>>,
    i: int,
    k: int,
)
    requires
        0 <= i,
        0 < c,
        i * c + c <= steps.len(),
        is_greatest(steps, c, i, k),
        k == 0 || k >= classes.len() || (i > 0 && is_greatest(steps, c, i - 1, k)),
    ensures
        spoken(steps, c, classes, i + 1) == spoken(steps, c, classes, i),
        certainty(steps, c, classes.len() as int, i + 1) == certainty(
            steps,
            c,
            classes.len() as int,
            i,
        ),
{
    law_steps_take_the_greatest(steps, c, i, k);
    if i > 0 {
        assert((i - 1) * c + c == i * c) by (nonlinear_arith);
        law_steps_take_the_greatest(steps, c, i - 1, k);
    }
}

/// Nothing is said before the first step.
pub proof fn law_decoding_starts_empty(steps: Seq<u32>, c: int, classes: Seq<Seq<char>>)
    ensures
        spoken(steps, c, classes, 0) == Seq::<char>::empty(),
        certainty(steps, c, classes.len() as int, 0) == (0int, 0int),
{
}

fn find_best(steps: &[u32], from: usize, c: usize) -> (k: usize)
    requires
        from + c <= steps@.len(),
        from + c <= usize::MAX,
    ensures
        k == best_class(steps@.subrange(from as int, from + c), c as int),
        c > 0 ==> k < c,
        c == 0 ==> k == 0,
{
    let ghost row = steps@.subrange(from as int, from + c);
    let mut best: usize = 0;
    let mut j: usize = 1;
    while j < c
        invariant
            from + c <= steps@.len(),
            from + c <= usize::MAX,
            row == steps@.subrange(from as int, from + c),
            1 <= j,
            c > 0 ==> j <= c && best < j,
            c == 0 ==> j == 1 && best == 0,
            best == best_class(row, j as int),
        decreases c - j,
    {
        proof {
            assert(row[j as int] == steps@[from + j]);
            assert(row[best as int] == steps@[from + best]);
        }
        if steps[from + j] > steps[from + best] {
            best = j;
        }
        j = j + 1;
    }
    proof {
        if c == 0 {
            assert(best_class(row, 1) == 0 && best_class(row, 0) == 0);
        }
    }
    best
}

/// Greedy decoding of `t` steps of `c` probabilities each, with the blank first: repeats are
/// collapsed and blanks dropped. The text, and the mean of the probabilities behind it.
pub fn ctc_decode(steps: &[u32], t: usize, c: usize, classes: &Vec<String>) -> (r: (String, u32))
    requires
        t * c <= steps@.len(),
    ensures
        r.0@ == spoken(steps@, c as int, text::strings_of(classes@), t as int),
        ({
            let (n, sum) = certainty(steps@, c as int, classes@.len() as int, t as int);
            r.1 == (if n == 0 {
                0
            } else {
                sum / n
            })
        }),
{
    let ghost all = text::strings_of(classes@);
    let len: usize = steps.len();
    let mut out = "".to_owned();
    let mut count: u64 = 0;
    let mut sum: u128 = 0;
    let mut prev: usize = 0;
    let mut i: usize = 0;
    let mut at: usize = 0;
    proof {
        reveal_strlit("");
        assert(out@ =~= Seq::<char>::empty());
        assert(0 * c as int == 0) by (nonlinear_arith);
    }
    while i < t
        invariant
            i <= t,
            len == steps@.len(),
            t * c <= len,
            all == text::strings_of(classes@),
            at == i * c,
            at <= len,
            prev == (if i == 0 {
                0
            } else {
                step_class(steps@, c as int, i - 1)
            }),
            out@ == spoken(steps@, c as int, all, i as int),
            (count as int, sum as int) == certainty(
                steps@,
                c as int,
                classes@.len() as int,
                i as int,
            ),
            count <= i,
            sum <= 0xffff_ffff * count,
        decreases t - i,
    {
        proof {
            assert((i + 1) * c == i * c + c) by (nonlinear_arith);
            assert((i + 1) * c <= t * c) by (nonlinear_arith)
                requires
                    i + 1 <= t,
                    0 <= c,
            ;
        }
        let k: usize = find_best(steps, at, c);
        proof {
            assert(k == step_class(steps@, c as int, i as int));
        }
        if k != 0 && k != prev && k < classes.len() {
            proof {
                assert(all[k as int] == classes@[k as int]@);
                assert(at + k == i * c + k);
            }
            out.append(classes[k].as_str());
            sum = sum + steps[at + k] as u128;
            count = count + 1;
        }
        prev = k;
        at = at + c;
        i = i + 1;
    }
    if count == 0 {
        (out, 0)
    } else {
        proof {
            let (a, b) = (sum as int, count as int);
            assert(0 <= a / b <= 0xffff_ffff) by (nonlinear_arith)
                requires
                    0 <= a <= 0xffff_ffff * b,
                    1 <= b,
            ;
        }
        (out, (sum / (count as u128)) as u32)
    }
}

/// A text without the carriage returns at its end.
pub open spec fn without_returns(s: Seq<char>) -> Seq<char>
    decreases s.len(),
{
    if s.len() > 0 && s.last() == '\r' {
        without_returns(s.drop_last())
    } else {
        s
    }
}

/// The lines of a dictionary: nothing follows the last line's end.
pub open spec fn dictionary_lines(s: Seq<char>) -> Seq<Seq<char>> {
    let p = text::split(s, "\n"@);
    if p.len() > 0 && p.last().len() == 0 {
        p.drop_last()
    } else {
        p
    }
}

/// The classes of a recogniser: the blank, the lines of its dictionary, and the space.
pub open spec fn class_texts(s: Seq<char>) -> Seq<Seq<char>> {
    seq![Seq::<char>::empty()] + dictionary_lines(s).map_values(
        |l: Seq<char>| without_returns(l),
    ) + seq![" "@]
}

fn strip_returns<'a>(s: &'a [char]) -> (r: &'a [char])
    ensures
        r@ == without_returns(s@),
{
    let mut n: usize = s.len();
    proof {
        assert(s@.take(n as int) =~= s@);
    }
    while n > 0 && s[n - 1] == '\r'
        invariant
            n <= s@.len(),
            without_returns(s@.take(n as int)) == without_returns(s@),
        decreases n,
    {
        proof {
            assert(s@.take(n as int).drop_last() =~= s@.take(n - 1));
        }
        n = n - 1;
    }
    proof {
        if n > 0 {
            assert(s@.take(n as int).last() == s@[n - 1]);
        }
        assert(s@.subrange(0, n as int) =~= s@.take(n as int));
    }
    vstd::slice::slice_subrange(s, 0, n)
}

/// The classes of a recogniser with the given dictionary.
pub fn classes_of(dictionary: &str) -> (r: Vec<String>)
    ensures
        text::strings_of(r@) == class_texts(dictionary@),
{
    let s = chars_of(dictionary);
    let nl = chars_of("\n");
    proof {
        reveal_strlit("\n");
    }
    let parts = split_at_all(s.as_slice(), nl.as_slice());
    let ghost lines = dictionary_lines(dictionary@);
    let mut n: usize = parts.len();
    if n > 0 && parts[n - 1].len() == 0 {
        n = n - 1;
    }
    let mut out: Vec<String> = Vec::new();
    out.push("".to_owned());
    let mut i: usize = 0;
    proof {
        reveal_strlit("");
        let all = text::texts_of(parts@);
        if parts@.len() > 0 {
            assert(all.last() == parts@[parts@.len() - 1]@);
        }
        assert(lines =~= all.take(n as int));
        assert(out@[0]@ =~= Seq::<char>::empty());
        assert(text::strings_of(out@) =~= seq![Seq::<char>::empty()]
            + lines.take(0).map_values(|l: Seq<char>| without_returns(l)));
    }
    while i < n
        invariant
            i <= n <= parts@.len(),
            lines == text::texts_of(parts@).take(n as int),
            text::strings_of(out@) == seq![Seq::<char>::empty()] + lines.take(
                i as int,
            ).map_values(|l: Seq<char>| without_returns(l)),
        decreases n - i,
    {
        let line = strip_returns(parts[i]);
        let ghost had = text::strings_of(out@);
        out.push(string_of(line));
        proof {
            assert(lines[i as int] == parts@[i as int]@);
            assert(text::strings_of(out@) =~= had.push(without_returns(lines[i as int])));
            assert(lines.take(i + 1).map_values(|l: Seq<char>| without_returns(l)) =~= lines.take(
                i as int,
            ).map_values(|l: Seq<char>| without_returns(l)).push(
                without_returns(lines[i as int]),
            ));
        }
        i = i + 1;
    }
    let ghost had = text::strings_of(out@);
    out.push(" ".to_owned());
    proof {
        assert(lines.take(n as int) =~= lines);
        assert(text::strings_of(out@) =~= had.push(" "@));
    }
    out
}

/// Checks the shape of what the recogniser gave for `n` boxes and `classes` classes: the number
/// of steps.
pub fn check_recognised(shape: &Vec<usize>, n: usize, classes: usize) -> (r: Result<
    usize,
    PerceiveError,
>)
    ensures
        r is Ok <==> shape@.len() == 3 && shape@[0] == n && shape@[2] == classes,
        r matches Ok(t) ==> t == shape@[1],
        r matches Err(e) ==> (e matches PerceiveError::Onnx(m) && m@ == "recogniser output shape "@
            + perceive::shown_shape(shape@) + ", expected ["@ + text::decimal(n as nat) + ", T, "@
            + text::decimal(classes as nat) + "]"@),
{
    if shape.len() == 3 {
        if shape[0] == n && shape[2] == classes {
            return Ok(shape[1]);
        }
    }
    let mut m = "recogniser output shape ".to_owned();
    m.append(show_shape(shape).as_str());
    m.append(", expected [");
    m.append(decimal_string(n as u64).as_str());
    m.append(", T, ");
    m.append(decimal_string(classes as u64).as_str());
    m.append("]");
    Err(PerceiveError::Onnx(m))
}

/// Checks the shape of what the detector gave: width and height of the map.
pub fn check_detected(shape: &Vec<usize>) -> (r: Result<(usize, usize), PerceiveError>)
    ensures
        r is Ok <==> shape@.len() == 4,
        r matches Ok((pw, ph)) ==> pw == shape@[3] && ph == shape@[2],
        r matches Err(e) ==> (e matches PerceiveError::Onnx(m) && m@ == "detector output shape "@
            + perceive::shown_shape(shape@)),
{
    if shape.len() != 4 {
        let mut m = "detector output shape ".to_owned();
        m.append(show_shape(shape).as_str());
        return Err(PerceiveError::Onnx(m));
    }
    Ok((shape[3], shape[2]))
}

/// A recognised line: its box on an image of `width` by `height` pixels.
#[derive(Debug)]
pub struct OcrLine {
    /// Text.
    pub text: String,
    /// Box.
    pub bbox: TextBox,
    /// Width of the image.
    pub width: u32,
    /// Height of the image.
    pub height: u32,
    /// Mean confidence.
    pub confidence: u32,
}

/// Which of the first `n` texts are lines: not blank, and certain enough.
pub open spec fn kept_lines(texts: Seq<(String, u32)>, min: int, n: int) -> Seq<int>
    decreases n,
{
    if n <= 0 {
        Seq::empty()
    } else {
        let rest = kept_lines(texts, min, n - 1);
        let (t, c) = texts[n - 1];
        if text::trimmed(t@).len() > 0 && c >= min {
            rest.push(n - 1)
        } else {
            rest
        }
    }
}

/// A line made of a box and what was recognised in it.
pub open spec fn is_line(l: OcrLine, b: TextBox, t: (String, u32), width: u32, height: u32) -> bool {
    &&& l.text@ == text::trimmed(t.0@)
    &&& l.bbox == b
    &&& l.width == width
    &&& l.height == height
    &&& l.confidence == t.1
}

/// The lines that were recognised in boxes, in their order; blank and uncertain ones are left
/// out.
pub fn lines_of(
    boxes: &Vec<TextBox>,
    texts: &Vec<(String, u32)>,
    width: u32,
    height: u32,
    min_confidence: u32,
) -> (r: Vec<OcrLine>)
    requires
        boxes@.len() == texts@.len(),
    ensures
        ({
            let kept = kept_lines(texts@, min_confidence as int, texts@.len() as int);
            &&& r@.len() == kept.len()
            &&& forall|k: int|
                0 <= k < r@.len() ==> is_line(
                    #[trigger] r@[k],
                    boxes@[kept[k]],
                    texts@[kept[k]],
                    width,
                    height,
                )
        }),
{
    let mut out: Vec<OcrLine> = Vec::new();
    let mut i: usize = 0;
    while i < texts.len()
        invariant
            i <= texts@.len() == boxes@.len(),
            ({
                let kept = kept_lines(texts@, min_confidence as int, i as int);
                &&& out@.len() == kept.len()
                &&& forall|k: int|
                    0 <= k < out@.len() ==> is_line(
                        #[trigger] out@[k],
                        boxes@[kept[k]],
                        texts@[kept[k]],
                        width,
                        height,
                    )
            }),
        decreases texts@.len() - i,
    {
        let t = chars_of(texts[i].0.as_str());
        let trimmed = trim_of(t.as_slice());
        let c: u32 = texts[i].1;
        if trimmed.len() > 0 && c >= min_confidence {
            let ghost had = out@;
            let ghost before = kept_lines(texts@, min_confidence as int, i as int);
            out.push(
                OcrLine { text: string_of(trimmed), bbox: boxes[i], width, height, confidence: c },
            );
            proof {
                let now = kept_lines(texts@, min_confidence as int, i + 1);
                assert(now == before.push(i as int));
                assert forall|k: int| 0 <= k < out@.len() implies is_line(
                    #[trigger] out@[k],
                    boxes@[now[k]],
                    texts@[now[k]],
                    width,
                    height,
                ) by {
                    if k < had.len() {
                        assert(out@[k] == had[k]);
                    }
                }
            }
        }
        i = i + 1;
    }
    out
}

/// The bytes of the first `n` rows of a box.
pub open spec fn cropped(rgb: Seq<u8>, stride: int, b: TextBox, n: int) -> Seq<u8>
    decreases n,
{
    if n <= 0 {
        Seq::empty()
    } else {
        let at = (b.y0 + n - 1) * stride;
        cropped(rgb, stride, b, n - 1) + rgb.subrange(at + 3 * b.x0, at + 3 * b.x1)
    }
}

/// Copies a box out of a packed RGB image, row behind row.
pub fn crop_rgb(rgb: &[u8], stride: usize, b: TextBox) -> (r: Vec<u8>)
    requires
        b.x0 < b.x1,
        b.y0 < b.y1,
        (b.y1 - 1) * stride + 3 * b.x1 <= rgb@.len(),
    ensures
        r@ == cropped(rgb@, stride as int, b, b.y1 - b.y0),
{
    let n: usize = rgb.len();
    let mut out: Vec<u8> = Vec::new();
    let mut y: u32 = b.y0;
    while y < b.y1
        invariant
            n == rgb@.len(),
            b.x0 < b.x1,
            b.y0 <= y <= b.y1,
            (b.y1 - 1) * stride + 3 * b.x1 <= rgb@.len(),
            out@ == cropped(rgb@, stride as int, b, y - b.y0),
        decreases b.y1 - y,
    {
        proof {
            let (yy, h, s) = (y as int, b.y1 - 1, stride as int);
            assert(0 <= yy * s <= h * s) by (nonlinear_arith)
                requires
                    0 <= yy <= h,
                    0 <= s,
            ;
        }
        let at: usize = y as usize * stride;
        let end: usize = at + 3 * (b.x1 as usize);
        let mut i: usize = at + 3 * (b.x0 as usize);
        let ghost had = out@;
        let ghost from = i as int;
        while i < end
            invariant
                0 <= from <= i <= end <= rgb@.len(),
                out@ == had + rgb@.subrange(from, i as int),
            decreases end - i,
        {
            out.push(rgb[i]);
            proof {
                assert(rgb@.subrange(from, i + 1) =~= rgb@.subrange(from, i as int).push(
                    rgb@[i as int],
                ));
                assert(out@ =~= had + rgb@.subrange(from, i + 1));
            }
            i = i + 1;
        }
        y = y + 1;
    }
    out
}

/// The lines that are kept are those that are not blank and certain enough, in their order.
pub proof fn law_sure_lines_are_kept(texts: Seq<(String, u32)>, min: int, n: int)
    requires
        0 <= n <= texts.len(),
    ensures
        forall|k: int| #[trigger]
            kept_lines(texts, min, n).contains(k) <==> 0 <= k < n && texts[k].1 >= min && exists|
                i: int,
            |
                0 <= i < texts[k].0@.len() && !text::whitespace(#[trigger] texts[k].0@[i]),
        forall|i: int, j: int|
            0 <= i < j < kept_lines(texts, min, n).len() ==> #[trigger] kept_lines(texts, min, n)[i]
                < #[trigger] kept_lines(texts, min, n)[j],
    decreases n,
{
    if n > 0 {
        law_sure_lines_are_kept(texts, min, n - 1);
        let rest = kept_lines(texts, min, n - 1);
        let r = kept_lines(texts, min, n);
        text::law_trimming(texts[n - 1].0@);
        assert forall|k: int| #[trigger] r.contains(k) <==> k == n - 1 && r.len() > rest.len()
            || rest.contains(k) by {
            if rest.contains(k) {
                let i = choose|i: int| 0 <= i < rest.len() && rest[i] == k;
                assert(r[i] == k);
            }
            if r.len() > rest.len() {
                assert(r[r.len() - 1] == n - 1);
            }
            if r.contains(k) {
                let i = choose|i: int| 0 <= i < r.len() && r[i] == k;
                if i < rest.len() {
                    assert(rest[i] == k);
                }
            }
        }
        assert forall|i: int, j: int| 0 <= i < j < r.len() implies #[trigger] r[i] < #[trigger] r[j] by {
            if j < rest.len() {
                assert(rest[i] < rest[j]);
            } else {
                assert(rest.contains(rest[i]));
            }
        }
        assert(rest.contains(n - 1) ==> false);
    }
}

/// A crop holds the rows of its box, each with the pixels of the image from the left edge of the
/// box to its right edge.
pub proof fn law_crops_keep_pixels(rgb: Seq<u8>, stride: int, b: TextBox, n: int, y: int, k: int)
    requires
        b.x0 < b.x1,
        0 <= y < n,
        0 <= k < 3 * (b.x1 - b.x0),
        0 <= stride,
        (b.y0 + n - 1) * stride + 3 * b.x1 <= rgb.len(),
    ensures
        cropped(rgb, stride, b, n).len() == n * (3 * (b.x1 - b.x0)),
        cropped(rgb, stride, b, n)[y * (3 * (b.x1 - b.x0)) + k] == rgb[(b.y0 + y) * stride + 3
            * b.x0 + k],
    decreases n,
{
    let w = 3 * (b.x1 - b.x0);
    let at = (b.y0 + n - 1) * stride;
    assert(0 <= at && (b.y0 + n - 2) * stride + stride == at) by (nonlinear_arith)
        requires
            0 <= stride,
            at == (b.y0 + n - 1) * stride,
            b.y0 + n - 1 >= 0,
    ;
    let row = rgb.subrange(at + 3 * b.x0, at + 3 * b.x1);
    assert(row.len() == w);
    let rest = cropped(rgb, stride, b, n - 1);
    assert((n - 1) * w + w == n * w) by (nonlinear_arith);
    if n > 1 {
        law_crops_keep_pixels(
            rgb,
            stride,
            b,
            n - 1,
            if y < n - 1 {
                y
            } else {
                0
            },
            k,
        );
        assert(rest.len() == (n - 1) * w);
    } else {
        assert(rest =~= Seq::<u8>::empty());
        assert(rest.len() == (n - 1) * w) by (nonlinear_arith)
            requires
                rest.len() == 0,
                n == 1,
        ;
    }
    assert(cropped(rgb, stride, b, n) == rest + row);
    if y < n - 1 {
        assert(0 <= y * w + k < (n - 1) * w) by (nonlinear_arith)
            requires
                0 <= y < n - 1,
                0 <= k < w,
        ;
    } else {
        assert(y * w + k == rest.len() + k);
        assert((rest + row)[rest.len() + k] == row[k]);
    }
}

/// The sides that the detector is given are whole blocks of 32, one at least and no longer than the
/// limit allows; an image within the limit keeps its sides to the nearest block.
pub proof fn law_detector_sides_are_whole_blocks(side: int, longer: int, max_side: int)
    requires
        1 <= side <= longer,
        max_side >= 32,
    ensures
        detector_side(side, longer, max_side) % 32 == 0,
        32 <= detector_side(side, longer, max_side) <= max_side,
        longer <= max_side && 32 <= side <= max_side - 31 ==> -16 <= detector_side(
            side,
            longer,
            max_side,
        ) - side <= 16,
        longer > max_side ==> detector_side(longer, longer, max_side) == (max_side / 32) * 32,
{
    if longer > max_side {
        let x = 2 * longer * max_side + 32 * longer;
        let y = 64 * longer;
        let q = max_side / 32;
        assert(x / y >= q) by (nonlinear_arith)
            requires
                x == 2 * longer * max_side + 32 * longer,
                y == 64 * longer,
                longer > 0,
                32 * q <= max_side,
        ;
    }
}

/// A dictionary has its lines; a line break at its end adds none.
pub proof fn law_dictionaries_have_their_lines(s: Seq<char>, line: Seq<char>)
    requires
        text::free_of(line, '\n'),
        line.len() > 0,
    ensures
        dictionary_lines(line) == seq![line],
        dictionary_lines(s + seq!['\n'] + line) == text::split(s, seq!['\n']).push(line),
        dictionary_lines(s + seq!['\n'] + line + seq!['\n']) == text::split(s, seq!['\n']).push(line),
{
    let nl = seq!['\n'];
    let none = Seq::<char>::empty();
    reveal_strlit("\n");
    assert("\n"@ =~= nl);
    text::law_splitting_at_a_character(line, none, '\n');
    text::law_splitting_at_a_character(none, none, '\n');
    text::law_splitting_goes_part_by_part(s, line, '\n');
    let a = s + nl + line;
    assert(a + nl =~= a + nl + none);
    text::law_splitting_goes_part_by_part(a, none, '\n');
    let p = text::split(s, nl);
    assert(p + seq![line] =~= p.push(line));
    assert((p.push(line) + seq![none]).last() == none);
    assert((p.push(line) + seq![none]).drop_last() =~= p.push(line));
}

/// Carriage returns at the end of a line are no part of it, however many there are.
pub proof fn law_returns_are_no_part_of_a_line(s: Seq<char>, n: nat)
    requires
        s.len() > 0 ==> s.last() != '\r',
    ensures
        without_returns(s + Seq::new(n, |i: int| '\r')) == s,
    decreases n,
{
    let t = s + Seq::new(n, |i: int| '\r');
    if n == 0 {
        assert(t =~= s);
    } else {
        law_returns_are_no_part_of_a_line(s, (n - 1) as nat);
        assert(t.drop_last() =~= s + Seq::new((n - 1) as nat, |i: int| '\r'));
    }
}

/// A line keeps its proportions when it is scaled to a height, rounded up to a whole pixel, within
/// 16 and 1600 pixels of width.
pub proof fn law_lines_keep_their_proportions(b: TextBox, h: int)
    requires
        b.x0 < b.x1,
        b.y0 < b.y1,
        h > 0,
    ensures
        16 <= line_width(b, h) <= 1600,
        16 < line_width(b, h) ==> (line_width(b, h) - 1) * (b.y1 - b.y0) < (b.x1 - b.x0) * h,
        line_width(b, h) < 1600 ==> (b.x1 - b.x0) * h <= line_width(b, h) * (b.y1 - b.y0),
{
    let (a, d) = ((b.x1 - b.x0) * h, b.y1 - b.y0);
    let x = a + d - 1;
    let w = x / d;
    let r = line_width(b, h);
    assert(w * d <= x < w * d + d) by (nonlinear_arith)
        requires
            w == x / d,
            d > 0,
    ;
    assert((r - 1) * d <= (w - 1) * d || r > w) by (nonlinear_arith)
        requires
            d > 0,
    ;
    assert((w - 1) * d == w * d - d) by (nonlinear_arith);
    assert(w * d <= r * d || r < w) by (nonlinear_arith)
        requires
            d > 0,
    ;
}

/// A batch is as wide as its widest line, and 16 pixels at least.
pub proof fn law_batches_are_as_wide_as_their_widest_line(s: Seq<(usize, u32)>, n: int)
    requires
        0 <= n <= s.len(),
    ensures
        widest(s, n) >= 16,
        forall|i: int| 0 <= i < n ==> (#[trigger] s[i]).1 <= widest(s, n),
        widest(s, n) == 16 || exists|i: int| 0 <= i < n && (#[trigger] s[i]).1 == widest(s, n),
    decreases n,
{
    if n > 0 {
        law_batches_are_as_wide_as_their_widest_line(s, n - 1);
    }
}

/// Edges are carried over to the image outwards: the near edge no further than it lies, the far
/// edge no nearer, both within the image.
pub proof fn law_edges_are_carried_outwards(e: int, side: int, cells: int)
    requires
        0 <= e <= cells,
        cells > 0,
        side > 0,
    ensures
        0 <= edge_down(e, side, cells) < side,
        edge_down(e, side, cells) * cells <= e * side,
        1 <= edge_up(e, side, cells) <= side,
        edge_up(e, side, cells) * cells >= e * side,
        edge_down(e, side, cells) < side - 1 ==> (edge_down(e, side, cells) + 1) * cells > e * side,
        edge_up(e, side, cells) > 1 ==> (edge_up(e, side, cells) - 1) * cells < e * side,
{
    let a = e * side;
    assert(0 <= a <= cells * side) by (nonlinear_arith)
        requires
            a == e * side,
            0 <= e <= cells,
            side > 0,
    ;
    let q = a / cells;
    assert(q * cells <= a < (q + 1) * cells && q >= 0) by (nonlinear_arith)
        requires
            q == a / cells,
            cells > 0,
            a >= 0,
    ;
    let x = a + cells - 1;
    let u = x / cells;
    assert(u * cells <= x < u * cells + cells && (u - 1) * cells == u * cells - cells && u >= 0)
        by (nonlinear_arith)
        requires
            u == x / cells,
            cells > 0,
            x >= 0,
    ;
    let (d, p) = (edge_down(e, side, cells), edge_up(e, side, cells));
    assert(d <= q ==> d * cells <= q * cells) by (nonlinear_arith)
        requires
            cells > 0,
    ;
    assert(side * cells == cells * side) by (nonlinear_arith);
    assert(u <= p ==> u * cells <= p * cells) by (nonlinear_arith)
        requires
            cells > 0,
    ;
    assert(p <= u ==> (p - 1) * cells <= (u - 1) * cells) by (nonlinear_arith)
        requires
            cells > 0,
    ;
}

} // verus!
