//! Rows and requests that are gathered and sent on in batches.

use vstd::prelude::*;

verus! {

/// Items that wait until there are enough of them.
#[derive(Debug)]
pub struct Batch<T> {
    pending: Vec<T>,
    size: usize,
}

impl<T> Batch<T> {
    /// The items that wait.
    pub closed spec fn spec_pending(self) -> Seq<T> {
        self.pending@
    }

    /// How many are enough.
    pub closed spec fn spec_size(self) -> usize {
        self.size
    }

    /// Nothing waits; `size` items are enough.
    pub fn new(size: usize) -> (b: Batch<T>)
        ensures
            b.spec_pending() == Seq::<T>::empty(),
            b.spec_size() == size,
    {
        Batch { pending: Vec::new(), size }
    }

    /// Adds an item.
    pub fn push(&mut self, x: T)
        ensures
            final(self).spec_pending() == old(self).spec_pending().push(x),
            final(self).spec_size() == old(self).spec_size(),
    {
        self.pending.push(x);
    }

    /// How many wait.
    pub fn len(&self) -> (n: usize)
        ensures
            n == self.spec_pending().len(),
    {
        self.pending.len()
    }

    /// Takes all that wait, if they are enough or `force` is given; else nothing, and they wait
    /// on.
    pub fn take(&mut self, force: bool) -> (r: Vec<T>)
        ensures
            if old(self).spec_pending().len() > 0 && (force || old(self).spec_pending().len()
                >= old(self).spec_size()) {
                r@ == old(self).spec_pending() && final(self).spec_pending() == Seq::<T>::empty()
            } else {
                r@ == Seq::<T>::empty() && final(self).spec_pending() == old(self).spec_pending()
            },
            r@ + final(self).spec_pending() == old(self).spec_pending(),
            final(self).spec_size() == old(self).spec_size(),
    {
        let mut out: Vec<T> = Vec::new();
        if self.pending.len() == 0 || (!force && self.pending.len() < self.size) {
            proof {
                assert(out@ + self.pending@ =~= self.pending@);
            }
            return out;
        }
        let ghost all = self.pending@;
        out.append(&mut self.pending);
        proof {
            assert(out@ =~= all);
            assert(out@ + Seq::<T>::empty() =~= all);
        }
        out
    }
}

/// The bounds of chunk `k` of `n` items in chunks of `size`.
pub open spec fn chunk(n: int, size: int, k: int) -> (int, int) {
    (
        k * size,
        if (k + 1) * size < n {
            (k + 1) * size
        } else {
            n
        },
    )
}

/// Bounds are those of all chunks, in order: of at most `size` items each, the last not empty.
pub open spec fn are_chunks(r: Seq<(usize, usize)>, n: int, size: int) -> bool {
    &&& forall|k: int|
        0 <= k < r.len() ==> (#[trigger] r[k]).0 == chunk(n, size, k).0 && r[k].1 == chunk(
            n,
            size,
            k,
        ).1
    &&& r.len() * size >= n
    &&& r.len() > 0 ==> (r.len() - 1) * size < n
}

/// The bounds of chunks of `n` items, of `size` at most; a size of zero counts as one.
pub fn chunks(n: usize, size: usize) -> (r: Vec<(usize, usize)>)
    ensures
        are_chunks(
            r@,
            n as int,
            if size == 0 {
                1
            } else {
                size as int
            },
        ),
        forall|k: int| 0 <= k < r@.len() ==> (#[trigger] r@[k]).0 < r@[k].1 <= n,
{
    let step: usize = if size == 0 {
        1
    } else {
        size
    };
    let mut out: Vec<(usize, usize)> = Vec::new();
    let mut at: usize = 0;
    proof {
        assert(0 * step as int == 0) by (nonlinear_arith);
    }
    while at < n
        invariant
            step > 0,
            at <= n,
            at < n ==> at == out@.len() * step,
            out@.len() * step >= at,
            out@.len() > 0 ==> (out@.len() - 1) * step < n,
            forall|k: int|
                0 <= k < out@.len() ==> (#[trigger] out@[k]).0 == chunk(
                    n as int,
                    step as int,
                    k,
                ).0 && out@[k].1 == chunk(n as int, step as int, k).1 && out@[k].0 < out@[k].1
                    <= n,
        decreases n - at,
    {
        let next: usize = if step < n - at {
            at + step
        } else {
            n
        };
        proof {
            let k = out@.len() as int;
            assert((k + 1) * step == k * step + step) by (nonlinear_arith);
        }
        out.push((at, next));
        at = next;
    }
    out
}

/// Chunks follow one another and leave nothing out: the first starts at the start, each ends where
/// the next one starts, the last ends at the end, and all but the last are full.
pub proof fn law_chunks_follow(r: Seq<(usize, usize)>, n: int, size: int, k: int)
    requires
        are_chunks(r, n, size),
        0 <= k < r.len(),
        size > 0,
    ensures
        r[0].0 == 0,
        r[r.len() - 1].1 == n,
        k + 1 < r.len() ==> r[k].1 == r[k + 1].0 && r[k].1 - r[k].0 == size,
        0 < r[k].1 - r[k].0 <= size,
{
    let m = r.len() as int;
    assert(0 * size == 0) by (nonlinear_arith);
    assert((k + 1) * size == k * size + size) by (nonlinear_arith);
    assert(k + 1 < m ==> (k + 1) * size <= (m - 1) * size) by (nonlinear_arith)
        requires
            size > 0,
    ;
    assert(k <= m - 1 ==> k * size <= (m - 1) * size) by (nonlinear_arith)
        requires
            size > 0,
    ;
    let first = r[0];
    let last = r[m - 1];
    assert(m * size == (m - 1) * size + size) by (nonlinear_arith);
}

} // verus!
