//! Derives the execution graph from operators' declared inputs and outputs.

use vstd::prelude::*;

use crate::operator::{ItemKind, OperatorDecl};

use crate::operator;

verus! {

/// Why a set of operators does not form an execution graph.
#[derive(Debug)]
pub enum DagError {
    /// Two operators share this id.
    Duplicate(String),
    /// The operator needs a kind that nothing produces.
    MissingProducer(String, ItemKind),
    /// The operator declares no inputs.
    NoInputs(String),
    /// The dependencies form a cycle.
    Cycle,
}

impl DagError {
    /// The text of the message.
    pub open spec fn spec_message(self) -> Seq<char> {
        match self {
            DagError::Duplicate(id) => "duplicate operator '"@ + id@ + "'"@,
            DagError::MissingProducer(id, k) => "operator '"@ + id@ + "' needs "@ + operator::kind_label(k)
                + " but nothing in the policy produces it"@,
            DagError::NoInputs(id) => "operator '"@ + id@ + "' declares no inputs"@,
            DagError::Cycle => "operator graph has a cycle"@,
        }
    }

    /// The message shown to users.
    pub fn message(&self) -> (s: String)
        ensures
            s@ == self.spec_message(),
    {
        match self {
            DagError::Duplicate(id) => {
                let mut s = "duplicate operator '".to_owned();
                s.append(id.as_str());
                s.append("'");
                s
            },
            DagError::MissingProducer(id, k) => {
                let mut s = "operator '".to_owned();
                s.append(id.as_str());
                s.append("' needs ");
                s.append(k.label());
                s.append(" but nothing in the policy produces it");
                s
            },
            DagError::NoInputs(id) => {
                let mut s = "operator '".to_owned();
                s.append(id.as_str());
                s.append("' declares no inputs");
                s
            },
            DagError::Cycle => "operator graph has a cycle".to_owned(),
        }
    }
}

/// Operator `p` produces kind `k`.
pub open spec fn produces(ops: Seq<OperatorDecl>, p: int, k: ItemKind) -> bool {
    0 <= p < ops.len() && ops[p].outputs@.contains(k)
}

/// Some operator produces kind `k`.
pub open spec fn produced(ops: Seq<OperatorDecl>, k: ItemKind) -> bool {
    exists|p: int| #[trigger] produces(ops, p, k)
}

/// Operator `j` consumes something that operator `i` produces.
pub open spec fn depends(ops: Seq<OperatorDecl>, j: int, i: int) -> bool {
    &&& 0 <= j < ops.len()
    &&& 0 <= i < ops.len()
    &&& exists|m: int|
        0 <= m < ops[j].inputs@.len() && #[trigger] ops[j].inputs@[m] != ItemKind::Media
            && ops[i].outputs@.contains(ops[j].inputs@[m])
}

/// Operator `i` takes the root media item.
pub open spec fn takes_media(ops: Seq<OperatorDecl>, i: int) -> bool {
    0 <= i < ops.len() && ops[i].inputs@.contains(ItemKind::Media)
}

/// An earlier operator has the same id as operator `i`.
pub open spec fn repeats_id(ops: Seq<OperatorDecl>, i: int) -> bool {
    exists|j: int| 0 <= j < i && #[trigger] ops[j].id@ == ops[i].id@
}

/// Input `m` of operator `i` has no producer.
pub open spec fn lacks(ops: Seq<OperatorDecl>, i: int, m: int) -> bool {
    ops[i].inputs@[m] != ItemKind::Media && !produced(ops, ops[i].inputs@[m])
}

/// Every input of operator `i` is the media item or is produced, and there is one.
pub open spec fn well_fed(ops: Seq<OperatorDecl>, i: int) -> bool {
    ops[i].inputs@.len() > 0 && forall|m: int|
        0 <= m < ops[i].inputs@.len() ==> !#[trigger] lacks(ops, i, m)
}

/// Everything but the graph's shape is in order: ids are distinct and every input has a source.
pub open spec fn declared_well(ops: Seq<OperatorDecl>) -> bool {
    &&& forall|i: int| 0 <= i < ops.len() ==> !#[trigger] repeats_id(ops, i)
    &&& forall|i: int| 0 <= i < ops.len() ==> #[trigger] well_fed(ops, i)
}

/// Every dependency goes from a higher rank to a lower one.
pub open spec fn ranked(ops: Seq<OperatorDecl>, rank: Seq<nat>) -> bool {
    &&& rank.len() == ops.len()
    &&& forall|j: int, i: int| #[trigger] depends(ops, j, i) ==> rank[i] < rank[j]
}

/// No operator depends on itself, directly or through others.
pub open spec fn acyclic(ops: Seq<OperatorDecl>) -> bool {
    exists|rank: Seq<nat>| ranked(ops, rank)
}

/// Everything operator `j` depends on is in `done`.
pub open spec fn satisfied(ops: Seq<OperatorDecl>, j: int, done: Seq<int>) -> bool {
    forall|i: int| #[trigger] depends(ops, j, i) ==> done.contains(i)
}

/// The operators below `n`, ascending, that operator `i` releases: they depend on it, and with
/// `done` nothing is missing any more.
pub open spec fn released(ops: Seq<OperatorDecl>, i: int, done: Seq<int>, n: int) -> Seq<int>
    decreases n,
{
    if n <= 0 {
        Seq::empty()
    } else {
        let before = released(ops, i, done, n - 1);
        if depends(ops, n - 1, i) && satisfied(ops, n - 1, done) {
            before.push(n - 1)
        } else {
            before
        }
    }
}

/// The operators below `n`, ascending, that depend on nothing.
pub open spec fn sources(ops: Seq<OperatorDecl>, n: int) -> Seq<int>
    decreases n,
{
    if n <= 0 {
        Seq::empty()
    } else {
        let before = sources(ops, n - 1);
        if satisfied(ops, n - 1, Seq::empty()) {
            before.push(n - 1)
        } else {
            before
        }
    }
}

/// Scheduling state after `k` steps: the stack of operators that are ready, and the order so far.
/// Each step takes the top of the stack and pushes what that operator releases.
pub open spec fn schedule(ops: Seq<OperatorDecl>, k: nat) -> (Seq<int>, Seq<int>)
    decreases k,
{
    if k == 0 {
        (sources(ops, ops.len() as int), Seq::empty())
    } else {
        let (ready, order) = schedule(ops, (k - 1) as nat);
        if ready.len() == 0 {
            (ready, order)
        } else {
            let next = order.push(ready.last());
            (ready.drop_last() + released(ops, ready.last(), next, ops.len() as int), next)
        }
    }
}

/// The order in which the operators run, as positions in the given list.
pub open spec fn run_order(ops: Seq<OperatorDecl>) -> Seq<int> {
    schedule(ops, ops.len()).1
}

/// Positions of the operators below `n` that take the media item, ascending.
pub open spec fn media_takers(ops: Seq<OperatorDecl>, n: int) -> Seq<int>
    decreases n,
{
    if n <= 0 {
        Seq::empty()
    } else if takes_media(ops, n - 1) {
        media_takers(ops, n - 1).push(n - 1)
    } else {
        media_takers(ops, n - 1)
    }
}

/// A validated, topologically ordered set of operators.
#[derive(Debug)]
pub struct Dag {
    ops: Vec<OperatorDecl>,
    consumers: Vec<Vec<usize>>,
    roots: Vec<usize>,
}

/// `c` lists, ascending and once each, the operators that depend on operator `a`.
pub open spec fn lists_consumers(ops: Seq<OperatorDecl>, a: int, c: Seq<usize>) -> bool {
    &&& forall|x: int, y: int| 0 <= x < y < c.len() ==> c[x] < c[y]
    &&& forall|b: int| 0 <= b <= usize::MAX ==> (c.contains(b as usize) <==> #[trigger] depends(ops, b, a))
}

impl Dag {
    /// The operators in run order.
    pub closed spec fn spec_ops(self) -> Seq<OperatorDecl> {
        self.ops@
    }

    /// The consumers of operator `a`.
    pub closed spec fn spec_consumers(self, a: int) -> Seq<usize> {
        self.consumers@[a]@
    }

    /// The operators that take the media item.
    pub closed spec fn spec_roots(self) -> Seq<usize> {
        self.roots@
    }

    /// Consumer lists match the operators and every operator comes after what it depends on.
    pub closed spec fn wf(self) -> bool {
        &&& self.consumers@.len() == self.ops@.len()
        &&& forall|a: int|
            0 <= a < self.ops@.len() ==> #[trigger] lists_consumers(
                self.ops@,
                a,
                self.consumers@[a]@,
            )
        &&& forall|b: int, a: int| #[trigger] depends(self.ops@, b, a) ==> a < b
        &&& forall|m: int|
            0 <= m < self.roots@.len() ==> takes_media(self.ops@, #[trigger] self.roots@[m] as int)
        &&& forall|a: int| #[trigger]
            takes_media(self.ops@, a) ==> self.roots@.contains(a as usize)
    }
}

/// Positions as mathematical integers.
pub open spec fn ints(s: Seq<usize>) -> Seq<int> {
    s.map_values(|x: usize| x as int)
}

proof fn lemma_released(ops: Seq<OperatorDecl>, i: int, done: Seq<int>, n: int)
    requires
        0 <= n <= ops.len(),
    ensures
        forall|j: int| #[trigger]
            released(ops, i, done, n).contains(j) <==> (0 <= j < n && depends(ops, j, i)
                && satisfied(ops, j, done)),
        released(ops, i, done, n).no_duplicates(),
    decreases n,
{
    if n > 0 {
        lemma_released(ops, i, done, n - 1);
        let before = released(ops, i, done, n - 1);
        let after = released(ops, i, done, n);
        assert forall|j: int| #[trigger] after.contains(j) <==> (0 <= j < n && depends(ops, j, i)
            && satisfied(ops, j, done)) by {
            if after != before {
                if before.contains(j) {
                    let q = choose|q: int| 0 <= q < before.len() && before[q] == j;
                    assert(after[q] == j);
                }
                assert(after.last() == n - 1);
            }
            assert(after.contains(j) ==> before.contains(j) || j == n - 1);
        }
        if after != before {
            assert(!before.contains(n - 1));
            assert forall|x: int, y: int| 0 <= x < y < after.len() implies after[x] != after[y] by {
                if y == after.len() - 1 {
                    assert(before[x] == after[x]);
                    assert(before.contains(after[x]));
                }
            }
        }
    }
}

proof fn lemma_sources(ops: Seq<OperatorDecl>, n: int)
    requires
        0 <= n <= ops.len(),
    ensures
        forall|j: int| #[trigger]
            sources(ops, n).contains(j) <==> (0 <= j < n && satisfied(ops, j, Seq::empty())),
        sources(ops, n).no_duplicates(),
    decreases n,
{
    if n > 0 {
        lemma_sources(ops, n - 1);
        let before = sources(ops, n - 1);
        let after = sources(ops, n);
        assert forall|j: int| #[trigger] after.contains(j) <==> (0 <= j < n && satisfied(
            ops,
            j,
            Seq::empty(),
        )) by {
            if after != before {
                if before.contains(j) {
                    let q = choose|q: int| 0 <= q < before.len() && before[q] == j;
                    assert(after[q] == j);
                }
                assert(after.last() == n - 1);
            }
            assert(after.contains(j) ==> before.contains(j) || j == n - 1);
        }
        if after != before {
            assert(!before.contains(n - 1));
            assert forall|x: int, y: int| 0 <= x < y < after.len() implies after[x] != after[y] by {
                if y == after.len() - 1 {
                    assert(before[x] == after[x]);
                    assert(before.contains(after[x]));
                }
            }
        }
    }
}

/// What holds of the scheduling state after any number of steps.
spec fn sched_inv(ops: Seq<OperatorDecl>, ready: Seq<int>, order: Seq<int>) -> bool {
    &&& (order + ready).no_duplicates()
    &&& forall|x: int| #[trigger] (order + ready).contains(x) ==> 0 <= x < ops.len()
    &&& forall|x: int| 0 <= x < ops.len() ==> (#[trigger] (order + ready).contains(x) <==> satisfied(
        ops,
        x,
        order,
    ))
    &&& forall|q: int| 0 <= q < order.len() ==> satisfied(ops, #[trigger] order[q], order.take(q))
}

proof fn lemma_concat_contains(a: Seq<int>, b: Seq<int>, x: int)
    ensures
        (a + b).contains(x) <==> a.contains(x) || b.contains(x),
{
    if a.contains(x) {
        let q = choose|q: int| 0 <= q < a.len() && a[q] == x;
        assert((a + b)[q] == x);
    }
    if b.contains(x) {
        let q = choose|q: int| 0 <= q < b.len() && b[q] == x;
        assert((a + b)[a.len() + q] == x);
    }
    if (a + b).contains(x) {
        let q = choose|q: int| 0 <= q < (a + b).len() && (a + b)[q] == x;
        if q < a.len() {
            assert(a[q] == x);
        } else {
            assert(b[q - a.len()] == x);
        }
    }
}

proof fn lemma_push_contains(a: Seq<int>, y: int, x: int)
    ensures
        a.push(y).contains(x) <==> a.contains(x) || x == y,
{
    assert(a.push(y) =~= a + seq![y]);
    lemma_concat_contains(a, seq![y], x);
    assert(seq![y][0] == y);
}

proof fn lemma_sched_step(ops: Seq<OperatorDecl>, ready: Seq<int>, order: Seq<int>)
    requires
        sched_inv(ops, ready, order),
        ready.len() > 0,
    ensures
        ({
            let next = order.push(ready.last());
            sched_inv(
                ops,
                ready.drop_last() + released(ops, ready.last(), next, ops.len() as int),
                next,
            )
        }),
{
    let x = ready.last();
    let next = order.push(x);
    let rel = released(ops, x, next, ops.len() as int);
    let ready2 = ready.drop_last() + rel;
    lemma_released(ops, x, next, ops.len() as int);
    let all = order + ready;
    let all2 = next + ready2;
    assert(all2 =~= (next + ready.drop_last()) + rel);
    // the part before the released operators is a rearrangement of the old list
    let head = next + ready.drop_last();
    assert forall|y: int| #[trigger] head.contains(y) <==> all.contains(y) by {
        lemma_concat_contains(next, ready.drop_last(), y);
        lemma_push_contains(order, x, y);
        lemma_concat_contains(order, ready, y);
        assert(ready =~= ready.drop_last().push(x));
        lemma_push_contains(ready.drop_last(), x, y);
    }
    assert(!order.contains(x)) by {
        if order.contains(x) {
            let q = choose|q: int| 0 <= q < order.len() && order[q] == x;
            assert(all[q] == x);
            assert(all[all.len() - 1] == x);
        }
    }
    assert(all[all.len() - 1] == x);
    assert(all.contains(x));
    assert forall|y: int| rel.contains(y) implies !all.contains(y) by {
        if all.contains(y) {
            assert(depends(ops, y, x));
            assert(satisfied(ops, y, order));
        }
    }
    assert(all2.no_duplicates()) by {
        assert forall|a: int, b: int| 0 <= a < b < all2.len() implies all2[a] != all2[b] by {
            if b < head.len() {
                // head[q] is all[q] except that x moved from the end to position order.len()
                let fa = if a < order.len() { a } else if a == order.len() { all.len() - 1 } else { a - 1 };
                let fb = if b < order.len() { b } else if b == order.len() { all.len() - 1 } else { b - 1 };
                assert(all2[a] == all[fa]);
                assert(all2[b] == all[fb]);
                assert(fa != fb);
                assert(all[fa] != all[fb]);
            } else if a >= head.len() {
                assert(all2[a] == rel[a - head.len()]);
                assert(all2[b] == rel[b - head.len()]);
            } else {
                assert(all2[b] == rel[b - head.len()]);
                assert(rel.contains(all2[b]));
                assert(head[a] == all2[a]);
                assert(head.contains(all2[a]));
            }
        }
    }
    assert forall|y: int| #[trigger] all2.contains(y) implies 0 <= y < ops.len() by {
        lemma_concat_contains(head, rel, y);
        assert(head.contains(y) || rel.contains(y));
        if head.contains(y) {
            assert((order + ready).contains(y));
        }
    }
    assert forall|y: int| 0 <= y < ops.len() implies (#[trigger] all2.contains(y) <==> satisfied(
        ops,
        y,
        next,
    )) by {
        lemma_concat_contains(head, rel, y);
        if all.contains(y) {
            assert forall|i: int| #[trigger] depends(ops, y, i) implies next.contains(i) by {
                lemma_push_contains(order, x, i);
            }
        } else if satisfied(ops, y, next) {
            assert(!satisfied(ops, y, order));
            let i = choose|i: int| #[trigger] depends(ops, y, i) && !order.contains(i);
            lemma_push_contains(order, x, i);
            assert(depends(ops, y, x));
        }
    }
    assert forall|q: int| 0 <= q < next.len() implies satisfied(
        ops,
        #[trigger] next[q],
        next.take(q),
    ) by {
        assert(next.take(q) =~= order.take(q));
        if q == order.len() {
            assert(order.take(q) =~= order);
            assert(satisfied(ops, x, order));
        }
    }
}

proof fn lemma_schedule(ops: Seq<OperatorDecl>, k: nat)
    ensures
        sched_inv(ops, schedule(ops, k).0, schedule(ops, k).1),
        schedule(ops, k).1.len() <= k,
        schedule(ops, k).0.len() > 0 ==> schedule(ops, k).1.len() == k,
    decreases k,
{
    if k == 0 {
        let ready = sources(ops, ops.len() as int);
        lemma_sources(ops, ops.len() as int);
        assert(Seq::<int>::empty() + ready =~= ready);
    } else {
        lemma_schedule(ops, (k - 1) as nat);
        let (ready, order) = schedule(ops, (k - 1) as nat);
        if ready.len() > 0 {
            lemma_sched_step(ops, ready, order);
        }
    }
}

proof fn lemma_schedule_stable(ops: Seq<OperatorDecl>, k: nat, m: nat)
    requires
        k <= m,
        schedule(ops, k).0.len() == 0,
    ensures
        schedule(ops, m) == schedule(ops, k),
    decreases m,
{
    if m > k {
        lemma_schedule_stable(ops, k, (m - 1) as nat);
    }
}

/// Distinct positions below `n` are at most `n`, and exactly `n` only if they are all of them.
proof fn lemma_pigeonhole(s: Seq<int>, n: nat)
    requires
        s.no_duplicates(),
        forall|x: int| #[trigger] s.contains(x) ==> 0 <= x < n,
    ensures
        s.len() <= n,
        s.len() == n ==> forall|x: int| 0 <= x < n ==> s.contains(x),
        s.len() < n ==> exists|x: int| 0 <= x < n && !s.contains(x),
{
    let range = vstd::set_lib::set_int_range(0, n as int);
    vstd::set_lib::lemma_int_range(0, n as int);
    s.unique_seq_to_set();
    assert(s.to_set().subset_of(range)) by {
        assert forall|x: int| s.to_set().contains(x) implies range.contains(x) by {
            assert(s.contains(x));
        }
    }
    vstd::set_lib::lemma_len_subset(s.to_set(), range);
    if s.len() == n {
        vstd::set_lib::lemma_subset_equality(s.to_set(), range);
        assert forall|x: int| 0 <= x < n implies s.contains(x) by {
            assert(range.contains(x));
            assert(s.to_set().contains(x));
        }
    } else {
        if forall|x: int| 0 <= x < n ==> s.contains(x) {
            assert(range.subset_of(s.to_set()));
            vstd::set_lib::lemma_len_subset(range, s.to_set());
        }
    }
}

/// The schedule never runs out of steps: after as many steps as operators nothing is waiting.
proof fn lemma_schedule_ends(ops: Seq<OperatorDecl>)
    ensures
        schedule(ops, ops.len()).0.len() == 0,
        run_order(ops).no_duplicates(),
        run_order(ops).len() <= ops.len(),
        forall|x: int| #[trigger] run_order(ops).contains(x) ==> 0 <= x < ops.len(),
        forall|x: int|
            0 <= x < ops.len() ==> (#[trigger] run_order(ops).contains(x) <==> satisfied(
                ops,
                x,
                run_order(ops),
            )),
        forall|q: int|
            0 <= q < run_order(ops).len() ==> satisfied(
                ops,
                #[trigger] run_order(ops)[q],
                run_order(ops).take(q),
            ),
{
    lemma_schedule(ops, ops.len());
    let (ready, order) = schedule(ops, ops.len());
    lemma_pigeonhole(order + ready, ops.len());
    assert(order + ready =~= order);
}

/// With a ranking, every operator gets scheduled.
proof fn lemma_ranked_scheduled(ops: Seq<OperatorDecl>, rank: Seq<nat>, x: int)
    requires
        ranked(ops, rank),
        0 <= x < ops.len(),
    ensures
        run_order(ops).contains(x),
    decreases rank[x],
{
    lemma_schedule_ends(ops);
    assert forall|i: int| #[trigger] depends(ops, x, i) implies run_order(ops).contains(i) by {
        lemma_ranked_scheduled(ops, rank, i);
    }
    assert(satisfied(ops, x, run_order(ops)));
}

/// Every operator gets scheduled exactly when the dependencies have no cycle.
pub proof fn law_order_is_complete_iff_acyclic(ops: Seq<OperatorDecl>)
    ensures
        run_order(ops).len() == ops.len() <==> acyclic(ops),
        run_order(ops).no_duplicates(),
{
    lemma_schedule_ends(ops);
    let order = run_order(ops);
    lemma_pigeonhole(order, ops.len());
    if order.len() == ops.len() {
        let rank = Seq::new(ops.len(), |x: int| order.index_of(x) as nat);
        assert forall|j: int, i: int| #[trigger] depends(ops, j, i) implies rank[i] < rank[j] by {
            assert(order.contains(j));
            assert(order.contains(i));
            let q = order.index_of(j);
            let r = order.index_of(i);
            assert(satisfied(ops, order[q], order.take(q)));
            assert(order.take(q).contains(i));
            let r2 = choose|r2: int| 0 <= r2 < q && order.take(q)[r2] == i;
            assert(order[r2] == i);
            assert(r == r2);
        }
        assert(ranked(ops, rank));
    } else if acyclic(ops) {
        let rank = choose|rank: Seq<nat>| ranked(ops, rank);
        let x = choose|x: int| 0 <= x < ops.len() && !order.contains(x);
        lemma_ranked_scheduled(ops, rank, x);
    }
}

fn has_kind(v: &Vec<ItemKind>, k: ItemKind) -> (b: bool)
    ensures
        b == v@.contains(k),
{
    let mut i: usize = 0;
    while i < v.len()
        invariant
            i <= v@.len(),
            forall|j: int| 0 <= j < i ==> v@[j] != k,
        decreases v@.len() - i,
    {
        if v[i] == k {
            return true;
        }
        i = i + 1;
    }
    false
}

fn kind_produced(ops: &Vec<OperatorDecl>, k: ItemKind) -> (b: bool)
    ensures
        b == produced(ops@, k),
{
    let mut p: usize = 0;
    while p < ops.len()
        invariant
            p <= ops@.len(),
            forall|j: int| 0 <= j < p ==> !#[trigger] produces(ops@, j, k),
        decreases ops@.len() - p,
    {
        if has_kind(&ops[p].outputs, k) {
            proof {
                assert(produces(ops@, p as int, k));
            }
            return true;
        }
        p = p + 1;
    }
    false
}

fn depends_on(ops: &Vec<OperatorDecl>, j: usize, i: usize) -> (b: bool)
    requires
        j < ops@.len(),
        i < ops@.len(),
    ensures
        b == depends(ops@, j as int, i as int),
{
    let inputs = &ops[j].inputs;
    let mut m: usize = 0;
    while m < inputs.len()
        invariant
            m <= inputs@.len(),
            inputs@ == ops@[j as int].inputs@,
            i < ops@.len(),
            j < ops@.len(),
            forall|x: int|
                0 <= x < m ==> (#[trigger] inputs@[x] == ItemKind::Media
                    || !ops@[i as int].outputs@.contains(inputs@[x])),
        decreases inputs@.len() - m,
    {
        let k = inputs[m];
        if k != ItemKind::Media && has_kind(&ops[i].outputs, k) {
            proof {
                assert(ops@[j as int].inputs@[m as int] == k);
            }
            return true;
        }
        m = m + 1;
    }
    false
}

/// The first operator whose id an earlier one already has.
fn first_repeat(ops: &Vec<OperatorDecl>) -> (r: Option<usize>)
    ensures
        match r {
            Some(i) => i < ops@.len() && repeats_id(ops@, i as int),
            None => forall|i: int| 0 <= i < ops@.len() ==> !#[trigger] repeats_id(ops@, i),
        },
        r matches Some(i) ==> forall|j: int| 0 <= j < i ==> !#[trigger] repeats_id(ops@, j),
{
    let mut i: usize = 0;
    while i < ops.len()
        invariant
            i <= ops@.len(),
            forall|j: int| 0 <= j < i ==> !#[trigger] repeats_id(ops@, j),
        decreases ops@.len() - i,
    {
        let mut j: usize = 0;
        while j < i
            invariant
                j <= i < ops@.len(),
                forall|x: int| 0 <= x < j ==> #[trigger] ops@[x].id@ != ops@[i as int].id@,
                forall|x: int| 0 <= x < i ==> !#[trigger] repeats_id(ops@, x),
            decreases i - j,
        {
            if ops[j].id == ops[i].id {
                return Some(i);
            }
            j = j + 1;
        }
        i = i + 1;
    }
    None
}

/// Operator `i` is the first that is not well fed.
pub open spec fn first_unfed(ops: Seq<OperatorDecl>, i: int) -> bool {
    0 <= i < ops.len() && !well_fed(ops, i) && forall|j: int|
        0 <= j < i ==> #[trigger] well_fed(ops, j)
}

/// Input `m` is the first of operator `i` that has no producer.
pub open spec fn first_lack(ops: Seq<OperatorDecl>, i: int, m: int) -> bool {
    0 <= m < ops[i].inputs@.len() && lacks(ops, i, m) && forall|x: int|
        0 <= x < m ==> !#[trigger] lacks(ops, i, x)
}

/// The first input of operator `i` without a producer.
fn missing_input(ops: &Vec<OperatorDecl>, i: usize) -> (r: Option<usize>)
    requires
        i < ops@.len(),
    ensures
        match r {
            Some(m) => first_lack(ops@, i as int, m as int),
            None => forall|m: int|
                0 <= m < ops@[i as int].inputs@.len() ==> !#[trigger] lacks(ops@, i as int, m),
        },
{
    let mut m: usize = 0;
    while m < ops[i].inputs.len()
        invariant
            i < ops@.len(),
            m <= ops@[i as int].inputs@.len(),
            forall|x: int| 0 <= x < m ==> !#[trigger] lacks(ops@, i as int, x),
        decreases ops@[i as int].inputs@.len() - m,
    {
        let k = ops[i].inputs[m];
        if k != ItemKind::Media && !kind_produced(ops, k) {
            return Some(m);
        }
        m = m + 1;
    }
    None
}

/// Whether everything operator `j` depends on is done.
fn nothing_missing(ops: &Vec<OperatorDecl>, j: usize, done: &Vec<bool>, Ghost(order): Ghost<Seq<int>>) -> (b:
    bool)
    requires
        j < ops@.len(),
        done@.len() == ops@.len(),
        forall|i: int| 0 <= i < ops@.len() ==> (#[trigger] done@[i] <==> order.contains(i)),
    ensures
        b == satisfied(ops@, j as int, order),
{
    let mut i: usize = 0;
    while i < ops.len()
        invariant
            i <= ops@.len(),
            j < ops@.len(),
            done@.len() == ops@.len(),
            forall|x: int| 0 <= x < ops@.len() ==> (#[trigger] done@[x] <==> order.contains(x)),
            forall|x: int|
                0 <= x < i && #[trigger] depends(ops@, j as int, x) ==> order.contains(x),
        decreases ops@.len() - i,
    {
        if depends_on(ops, j, i) && !done[i] {
            proof {
                assert(!order.contains(i as int));
                assert(depends(ops@, j as int, i as int));
            }
            return false;
        }
        i = i + 1;
    }
    true
}

/// The run order of the operators, cut short by a cycle.
fn order_of(ops: &Vec<OperatorDecl>) -> (order: Vec<usize>)
    ensures
        ints(order@) == run_order(ops@),
{
    let n: usize = ops.len();
    let mut done: Vec<bool> = vec![false; n];
    let mut ready: Vec<usize> = Vec::new();
    let mut order: Vec<usize> = Vec::new();
    let mut j: usize = 0;
    while j < n
        invariant
            j <= n == ops@.len(),
            done@.len() == n,
            forall|x: int| 0 <= x < n ==> !#[trigger] done@[x],
            ints(ready@) == sources(ops@, j as int),
        decreases n - j,
    {
        let ghost before = ready@;
        if nothing_missing(ops, j, &done, Ghost(Seq::empty())) {
            ready.push(j);
            proof {
                assert(ints(ready@) =~= ints(before).push(j as int));
            }
        }
        j = j + 1;
    }
    let ghost mut k: nat = 0;
    proof {
        assert(ints(order@) =~= Seq::<int>::empty());
    }
    while ready.len() > 0
        invariant
            n == ops@.len(),
            k <= n,
            done@.len() == n,
            ints(ready@) == schedule(ops@, k).0,
            ints(order@) == schedule(ops@, k).1,
            forall|x: int| 0 <= x < n ==> (#[trigger] done@[x] <==> ints(order@).contains(x)),
        decreases n - k,
    {
        proof {
            lemma_schedule(ops@, k);
            lemma_pigeonhole(ints(order@) + ints(ready@), n as nat);
            assert(ints(ready@).last() == ready@.last());
            assert((ints(order@) + ints(ready@))[order@.len() + ready@.len() - 1] == ready@.last());
            assert((ints(order@) + ints(ready@)).contains(ready@.last() as int));
        }
        let ghost was = ready@;
        let ghost prior = ints(order@);
        let i: usize = ready.pop().unwrap();
        let ghost base = ready@;
        order.push(i);
        proof {
            assert(base =~= was.drop_last());
            assert(ints(base) =~= ints(was).drop_last());
            assert(ints(order@) =~= prior.push(i as int));
        }
        done.set(i, true);
        proof {
            assert forall|x: int| 0 <= x < n implies (#[trigger] done@[x] <==> ints(
                order@,
            ).contains(x)) by {
                lemma_push_contains(prior, i as int, x);
            }
        }
        let mut j: usize = 0;
        proof {
            assert(ints(base) + released(ops@, i as int, ints(order@), 0) =~= ints(base));
        }
        while j < n
            invariant
                j <= n == ops@.len(),
                i < n,
                done@.len() == n,
                forall|x: int| 0 <= x < n ==> (#[trigger] done@[x] <==> ints(order@).contains(x)),
                ints(ready@) == ints(base) + released(ops@, i as int, ints(order@), j as int),
            decreases n - j,
        {
            let ghost before = ready@;
            if depends_on(ops, j, i) && nothing_missing(ops, j, &done, Ghost(ints(order@))) {
                ready.push(j);
                proof {
                    assert(ints(ready@) =~= ints(before).push(j as int));
                    assert(ints(ready@) =~= ints(base) + released(
                        ops@,
                        i as int,
                        ints(order@),
                        j + 1,
                    ));
                }
            }
            j = j + 1;
        }
        proof {
            k = k + 1;
        }
    }
    proof {
        lemma_schedule_stable(ops@, k, n as nat);
    }
    order
}

/// The graph holds the given operators, rearranged into run order, with its roots in the order
/// in which they were given.
pub open spec fn arranges(dag: Dag, ops: Seq<OperatorDecl>) -> bool {
    &&& dag.spec_ops().len() == ops.len()
    &&& run_order(ops).len() == ops.len()
    &&& forall|q: int|
        0 <= q < ops.len() ==> #[trigger] dag.spec_ops()[q] == ops[run_order(ops)[q]]
    &&& dag.spec_roots().len() == media_takers(ops, ops.len() as int).len()
    &&& forall|m: int|
        0 <= m < dag.spec_roots().len() ==> run_order(ops)[#[trigger] dag.spec_roots()[m] as int]
            == media_takers(ops, ops.len() as int)[m]
}

/// What building a graph from these operators may answer.
pub open spec fn build_outcome(ops: Seq<OperatorDecl>, r: Result<Dag, DagError>) -> bool {
    match r {
        Ok(dag) => declared_well(ops) && acyclic(ops) && dag.wf() && arranges(dag, ops),
        Err(DagError::Duplicate(id)) => exists|i: int|
            0 <= i < ops.len() && #[trigger] repeats_id(ops, i) && id@ == ops[i].id@ && forall|j: int|
                0 <= j < i ==> !#[trigger] repeats_id(ops, j),
        Err(DagError::MissingProducer(id, k)) => {
            &&& forall|i: int| 0 <= i < ops.len() ==> !#[trigger] repeats_id(ops, i)
            &&& exists|i: int, m: int|
                first_unfed(ops, i) && #[trigger] first_lack(ops, i, m) && id@ == ops[i].id@ && k
                    == ops[i].inputs@[m]
        },
        Err(DagError::NoInputs(id)) => {
            &&& forall|i: int| 0 <= i < ops.len() ==> !#[trigger] repeats_id(ops, i)
            &&& exists|i: int| #[trigger]
                first_unfed(ops, i) && ops[i].inputs@.len() == 0 && id@ == ops[i].id@
        },
        Err(DagError::Cycle) => declared_well(ops) && !acyclic(ops),
    }
}

proof fn lemma_media_takers(ops: Seq<OperatorDecl>, n: int)
    requires
        0 <= n <= ops.len(),
    ensures
        forall|i: int| #[trigger]
            media_takers(ops, n).contains(i) <==> 0 <= i < n && takes_media(ops, i),
    decreases n,
{
    if n > 0 {
        lemma_media_takers(ops, n - 1);
        let before = media_takers(ops, n - 1);
        assert forall|i: int| #[trigger] media_takers(ops, n).contains(i) <==> 0 <= i < n
            && takes_media(ops, i) by {
            lemma_push_contains(before, n - 1, i);
        }
    }
}

impl Dag {
    /// Builds the graph from operators in any order. Every input kind must be produced by some
    /// operator or be [`ItemKind::Media`]; cycles are rejected.
    pub fn build(ops: Vec<OperatorDecl>) -> (r: Result<Dag, DagError>)
        ensures
            build_outcome(ops@, r),
    {
        match first_repeat(&ops) {
            Some(i) => {
                return Err(DagError::Duplicate(ops[i].id.clone()));
            },
            None => {},
        }
        let n: usize = ops.len();
        let mut i: usize = 0;
        while i < n
            invariant
                i <= n == ops@.len(),
                forall|j: int| 0 <= j < ops@.len() ==> !#[trigger] repeats_id(ops@, j),
                forall|j: int| 0 <= j < i ==> #[trigger] well_fed(ops@, j),
            decreases n - i,
        {
            match missing_input(&ops, i) {
                Some(m) => {
                    proof {
                        assert(first_unfed(ops@, i as int));
                        assert(first_lack(ops@, i as int, m as int));
                    }
                    return Err(DagError::MissingProducer(ops[i].id.clone(), ops[i].inputs[m]));
                },
                None => {},
            }
            if ops[i].inputs.len() == 0 {
                proof {
                    assert(first_unfed(ops@, i as int));
                }
                return Err(DagError::NoInputs(ops[i].id.clone()));
            }
            i = i + 1;
        }
        let order = order_of(&ops);
        proof {
            law_order_is_complete_iff_acyclic(ops@);
            lemma_schedule_ends(ops@);
            assert(ints(order@).len() == order@.len());
        }
        if order.len() != n {
            return Err(DagError::Cycle);
        }
        let ghost given = ops@;
        let ghost ord = run_order(given);
        proof {
            lemma_pigeonhole(ord, n as nat);
            assert forall|q: int| 0 <= q < n implies #[trigger] order@[q] == ord[q] && order@[q]
                < n by {
                assert(ints(order@)[q] == ord[q]);
                assert(ord.contains(ord[q]));
            }
            assert forall|q: int| 0 <= q < n implies 0 <= #[trigger] ord[q] < n by {
                assert(ord.contains(ord[q]));
            }
        }
        // Take the operators out one by one, in run order.
        let mut slots: Vec<Option<OperatorDecl>> = Vec::new();
        for op in it: ops
            invariant
                it.seq() == given,
                slots@.len() == it.index(),
                forall|x: int|
                    0 <= x < slots@.len() ==> #[trigger] slots@[x] == Some(given[x]),
        {
            slots.push(Some(op));
        }
        let mut sorted: Vec<OperatorDecl> = Vec::new();
        let mut pos: Vec<usize> = vec![0; n];
        let mut q: usize = 0;
        while q < n
            invariant
                q <= n,
                n == given.len(),
                order@.len() == n,
                ord.len() == n,
                ord.no_duplicates(),
                slots@.len() == n,
                sorted@.len() == q,
                pos@.len() == n,
                forall|x: int| 0 <= x < n ==> #[trigger] order@[x] == ord[x] && order@[x] < n,
                forall|x: int| 0 <= x < n ==> 0 <= #[trigger] ord[x] < n,
                forall|x: int| q <= x < n ==> slots@[#[trigger] ord[x]] == Some(given[ord[x]]),
                forall|x: int| 0 <= x < q ==> #[trigger] sorted@[x] == given[ord[x]],
                forall|x: int| 0 <= x < q ==> pos@[#[trigger] ord[x]] == x,
            decreases n - q,
        {
            let from: usize = order[q];
            proof {
                assert(ord[q as int] == from);
                assert forall|x: int| 0 <= x < n && x != q implies #[trigger] ord[x] != from by {
                    assert(ord[x] != ord[q as int]);
                }
            }
            let taken = slots[from].take();
            match taken {
                Some(op) => sorted.push(op),
                None => {},
            }
            pos.set(from, q);
            q = q + 1;
        }
        proof {
            assert forall|b: int, a: int| depends(sorted@, b, a) <==> #[trigger] depends(
                given,
                ord[b],
                ord[a],
            ) && 0 <= b < n && 0 <= a < n by {
                if 0 <= b < n && 0 <= a < n {
                    assert(sorted@[b] == given[ord[b]]);
                    assert(sorted@[a] == given[ord[a]]);
                    assert(order@[a] == ord[a] && order@[b] == ord[b]);
                }
            }
            assert forall|b: int, a: int| #[trigger] depends(sorted@, b, a) implies a < b by {
                assert(depends(given, ord[b], ord[a]));
                assert(satisfied(given, ord[b], ord.take(b)));
                assert(ord.take(b).contains(ord[a]));
                let r = choose|r: int| 0 <= r < b && ord.take(b)[r] == ord[a];
                assert(ord[r] == ord[a]);
            }
        }
        let mut consumers: Vec<Vec<usize>> = Vec::new();
        let mut a: usize = 0;
        while a < n
            invariant
                a <= n,
                n == sorted@.len(),
                consumers@.len() == a,
                forall|x: int|
                    0 <= x < a ==> lists_consumers(sorted@, x, #[trigger] consumers@[x]@),
            decreases n - a,
        {
            let mut c: Vec<usize> = Vec::new();
            let mut b: usize = 0;
            while b < n
                invariant
                    a < n,
                    b <= n,
                    n == sorted@.len(),
                    forall|x: int, y: int| 0 <= x < y < c@.len() ==> c@[x] < c@[y],
                    forall|x: int| 0 <= x < c@.len() ==> #[trigger] c@[x] < b,
                    forall|x: int|
                        0 <= x < b ==> (c@.contains(x as usize) <==> #[trigger] depends(
                            sorted@,
                            x,
                            a as int,
                        )),
                decreases n - b,
            {
                let ghost before = c@;
                if depends_on(&sorted, b, a) {
                    c.push(b);
                    proof {
                        assert forall|x: int| 0 <= x < b + 1 implies (c@.contains(x as usize)
                            <==> #[trigger] depends(sorted@, x, a as int)) by {
                            if x < b {
                                if before.contains(x as usize) {
                                    let z = choose|z: int|
                                        0 <= z < before.len() && before[z] == x as usize;
                                    assert(c@[z] == x as usize);
                                }
                                assert(c@.contains(x as usize) ==> before.contains(x as usize)) by {
                                    if c@.contains(x as usize) {
                                        let z = choose|z: int|
                                            0 <= z < c@.len() && c@[z] == x as usize;
                                        assert(z < before.len());
                                        assert(before[z] == x as usize);
                                    }
                                }
                            } else {
                                assert(c@[c@.len() - 1] == b);
                            }
                        }
                    }
                } else {
                    proof {
                        assert(!c@.contains(b)) by {
                            if c@.contains(b) {
                                let z = choose|z: int| 0 <= z < c@.len() && c@[z] == b;
                                assert(c@[z] < b);
                            }
                        }
                    }
                }
                b = b + 1;
            }
            proof {
                assert(lists_consumers(sorted@, a as int, c@)) by {
                    assert forall|x: int| 0 <= x <= usize::MAX implies (c@.contains(x as usize)
                        <==> #[trigger] depends(sorted@, x, a as int)) by {
                        if x >= n {
                            if c@.contains(x as usize) {
                                let z = choose|z: int| 0 <= z < c@.len() && c@[z] == x as usize;
                                assert(c@[z] < n);
                            }
                        }
                    }
                }
            }
            consumers.push(c);
            a = a + 1;
        }
        let mut roots: Vec<usize> = Vec::new();
        let mut i: usize = 0;
        proof {
            assert forall|x: int| 0 <= x < n implies 0 <= #[trigger] pos@[x] < n
                && ord[pos@[x] as int] == x by {
                assert(ord.contains(x));
                let z = choose|z: int| 0 <= z < ord.len() && ord[z] == x;
                assert(pos@[ord[z]] == z);
            }
        }
        while i < n
            invariant
                i <= n,
                n == sorted@.len() == given.len() == pos@.len() == ord.len(),
                forall|x: int|
                    0 <= x < n ==> 0 <= #[trigger] pos@[x] < n && ord[pos@[x] as int] == x,
                forall|x: int| 0 <= x < n ==> #[trigger] sorted@[x] == given[ord[x]],
                roots@.len() == media_takers(given, i as int).len(),
                forall|m: int|
                    0 <= m < roots@.len() ==> ord[#[trigger] roots@[m] as int] == media_takers(
                        given,
                        i as int,
                    )[m] && roots@[m] < n,
            decreases n - i,
        {
            let at: usize = pos[i];
            proof {
                assert(sorted@[at as int] == given[i as int]);
            }
            if has_kind(&sorted[at].inputs, ItemKind::Media) {
                roots.push(at);
            }
            i = i + 1;
        }
        proof {
            lemma_media_takers(given, n as int);
            let mt = media_takers(given, n as int);
            assert forall|m: int| 0 <= m < roots@.len() implies takes_media(
                sorted@,
                #[trigger] roots@[m] as int,
            ) by {
                assert(mt.contains(mt[m]));
                assert(sorted@[roots@[m] as int] == given[ord[roots@[m] as int]]);
            }
            assert forall|a: int| #[trigger] takes_media(sorted@, a) implies roots@.contains(
                a as usize,
            ) by {
                assert(sorted@[a] == given[ord[a]]);
                assert(order@[a] == ord[a]);
                assert(takes_media(given, ord[a]));
                assert(mt.contains(ord[a]));
                let m = choose|m: int| 0 <= m < mt.len() && mt[m] == ord[a];
                assert(ord[roots@[m] as int] == ord[a]);
                assert(roots@[m] == a);
            }
        }
        Ok(Dag { ops: sorted, consumers, roots })
    }
}

impl Dag {
    /// Operators in topological order.
    pub fn operators(&self) -> (r: &[OperatorDecl])
        ensures
            r@ == self.spec_ops(),
    {
        self.ops.as_slice()
    }

    /// Indices of the operators that consume operator `i`'s outputs.
    pub fn consumers_of(&self, i: usize) -> (r: &[usize])
        requires
            self.wf(),
            i < self.spec_ops().len(),
        ensures
            r@ == self.spec_consumers(i as int),
    {
        self.consumers[i].as_slice()
    }

    /// Indices of the operators that take the root `Media` item.
    pub fn roots(&self) -> (r: &[usize])
        ensures
            r@ == self.spec_roots(),
    {
        self.roots.as_slice()
    }

    /// Stage names in run order.
    pub fn stage_names(&self) -> (names: Vec<String>)
        ensures
            names@.len() == self.spec_ops().len(),
            forall|i: int|
                0 <= i < names@.len() ==> #[trigger] names@[i]@ == self.spec_ops()[i].id@,
    {
        let mut names: Vec<String> = Vec::new();
        let mut i: usize = 0;
        while i < self.ops.len()
            invariant
                i <= self.ops@.len(),
                names@.len() == i,
                forall|x: int| 0 <= x < i ==> #[trigger] names@[x]@ == self.ops@[x].id@,
            decreases self.ops@.len() - i,
        {
            names.push(self.ops[i].id.clone());
            i = i + 1;
        }
        names
    }

    /// Takes the graph apart.
    pub fn into_parts(self) -> (parts: DagParts)
        requires
            self.wf(),
        ensures
            parts.0@ == self.spec_ops(),
            parts.1@.len() == self.spec_ops().len(),
            forall|a: int|
                0 <= a < parts.1@.len() ==> #[trigger] parts.1@[a]@ == self.spec_consumers(a),
            parts.2@ == self.spec_roots(),
    {
        (self.ops, self.consumers, self.roots)
    }
}

/// Operators in topological order, each operator's consumer indices, and the
/// indices of root operators.
pub type DagParts = (Vec<OperatorDecl>, Vec<Vec<usize>>, Vec<usize>);

/// In a built graph the consumers of an operator are exactly the operators that depend on it,
/// listed once each in ascending order, and all of them come after it.
pub proof fn law_consumers_follow_producers(dag: Dag, a: int, b: int)
    requires
        dag.wf(),
        0 <= a < dag.spec_ops().len(),
    ensures
        lists_consumers(dag.spec_ops(), a, dag.spec_consumers(a)),
        depends(dag.spec_ops(), b, a) ==> a < b < dag.spec_ops().len(),
{
    assert(lists_consumers(dag.ops@, a, dag.consumers@[a]@));
}

/// The roots of a built graph are exactly the operators that take the media item.
pub proof fn law_roots_take_media(dag: Dag, a: usize)
    requires
        dag.wf(),
    ensures
        dag.spec_roots().contains(a) <==> takes_media(dag.spec_ops(), a as int),
{
    if dag.spec_roots().contains(a) {
        let m = choose|m: int| 0 <= m < dag.roots@.len() && dag.roots@[m] == a;
        assert(takes_media(dag.ops@, dag.roots@[m] as int));
    }
}

} // verus!
