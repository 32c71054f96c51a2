//! Deadlock avoidance for mutexes and semaphores, by the banker's algorithm.
//!
//! Every lock (mutex or semaphore) has an identifier `r < MAX_LOCK`; every
//! thread an identifier `t < MAX_THREAD`. The detector keeps, per lock, how
//! many units are free (`available`), and per thread and lock how many units
//! the thread holds (`allocation`) and how many it waits for (`need`).
use vstd::prelude::*;
use vstd::set_lib::*;

use crate::config::{DEADLOCK_SIGNAL, MAX_LOCK, MAX_THREAD, WAIT_SIGNAL};
use crate::recycle::{live_ids, RecycleAllocator};

verus! {

// ---------------------------------------------------------------------------
// The mathematical model
// ---------------------------------------------------------------------------

/// Whether `m` is a `MAX_THREAD` by `MAX_LOCK` matrix.
pub open spec fn is_matrix(m: Seq<Seq<usize>>) -> bool {
    &&& m.len() == MAX_THREAD
    &&& forall|t: int| 0 <= t < MAX_THREAD ==> (#[trigger] m[t]).len() == MAX_LOCK
}

/// Units of lock `r` held by the threads `t < n` that lie in `s`.
pub open spec fn sum_over(alloc: Seq<Seq<usize>>, s: Set<int>, r: int, n: int) -> int
    decreases n,
{
    if n <= 0 {
        0
    } else {
        sum_over(alloc, s, r, n - 1) + if s.contains(n - 1) {
            alloc[n - 1][r] as int
        } else {
            0
        }
    }
}

/// Units of lock `r` held by all threads together.
pub open spec fn held_total(alloc: Seq<Seq<usize>>, r: int) -> int {
    sum_over(alloc, set_int_range(0, MAX_THREAD as int), r, MAX_THREAD as int)
}

/// Units of lock `r` held by the threads listed in `order`.
pub open spec fn seq_sum(alloc: Seq<Seq<usize>>, order: Seq<int>, r: int) -> int
    decreases order.len(),
{
    if order.len() == 0 {
        0
    } else {
        seq_sum(alloc, order.drop_last(), r) + alloc[order.last()][r] as int
    }
}

/// Whether thread `t` can have all it waits for once the threads in `done`
/// have finished and given back what they hold.
pub open spec fn satisfiable(
    avail: Seq<usize>,
    alloc: Seq<Seq<usize>>,
    need: Seq<Seq<usize>>,
    done: Seq<int>,
    t: int,
) -> bool {
    forall|r: int| 0 <= r < MAX_LOCK ==> need[t][r] <= avail[r] + #[trigger] seq_sum(alloc, done, r)
}

/// Whether `order` lists distinct threads that can finish one after the
/// other in that order.
pub open spec fn is_safe_order(
    avail: Seq<usize>,
    alloc: Seq<Seq<usize>>,
    need: Seq<Seq<usize>>,
    order: Seq<int>,
) -> bool {
    &&& order.no_duplicates()
    &&& forall|j: int| 0 <= j < order.len() ==> 0 <= #[trigger] order[j] < MAX_THREAD
    &&& forall|j: int|
        0 <= j < order.len() ==> satisfiable(avail, alloc, need, order.take(j), #[trigger] order[j])
}

/// A state is safe when all threads can finish in some order.
pub open spec fn is_safe_state(
    avail: Seq<usize>,
    alloc: Seq<Seq<usize>>,
    need: Seq<Seq<usize>>,
) -> bool {
    exists|order: Seq<int>|
        #![trigger is_safe_order(avail, alloc, need, order)]
        is_safe_order(avail, alloc, need, order) && forall|t: int|
            0 <= t < MAX_THREAD ==> #[trigger] order.contains(t)
}

/// `m` with entry `(t, r)` set to `v`.
pub open spec fn matrix_set(m: Seq<Seq<usize>>, t: int, r: int, v: usize) -> Seq<Seq<usize>> {
    m.update(t, m[t].update(r, v))
}

/// The rows of a matrix held as vectors.
pub open spec fn rows(m: Seq<Vec<usize>>) -> Seq<Seq<usize>> {
    m.map_values(|row: Vec<usize>| row@)
}

// ---------------------------------------------------------------------------
// Lemmas on sums
// ---------------------------------------------------------------------------

proof fn lemma_seq_sum_push(alloc: Seq<Seq<usize>>, order: Seq<int>, x: int, r: int)
    ensures
        seq_sum(alloc, order.push(x), r) == seq_sum(alloc, order, r) + alloc[x][r],
{
    assert(order.push(x).drop_last() =~= order);
}

proof fn lemma_sum_over_insert(alloc: Seq<Seq<usize>>, s: Set<int>, x: int, r: int, n: int)
    requires
        0 <= x,
        !s.contains(x),
    ensures
        sum_over(alloc, s.insert(x), r, n) == sum_over(alloc, s, r, n) + if x < n {
            alloc[x][r] as int
        } else {
            0
        },
    decreases n,
{
    if n > 0 {
        lemma_sum_over_insert(alloc, s, x, r, n - 1);
    }
}

proof fn lemma_sum_over_mono(alloc: Seq<Seq<usize>>, s1: Set<int>, s2: Set<int>, r: int, n: int)
    requires
        forall|t: int| 0 <= t < n && #[trigger] s1.contains(t) ==> s2.contains(t),
    ensures
        sum_over(alloc, s1, r, n) <= sum_over(alloc, s2, r, n),
    decreases n,
{
    if n > 0 {
        lemma_sum_over_mono(alloc, s1, s2, r, n - 1);
    }
}

proof fn lemma_sum_over_ext(alloc: Seq<Seq<usize>>, s1: Set<int>, s2: Set<int>, r: int, n: int)
    requires
        forall|t: int| 0 <= t < n ==> (#[trigger] s1.contains(t) <==> s2.contains(t)),
    ensures
        sum_over(alloc, s1, r, n) == sum_over(alloc, s2, r, n),
    decreases n,
{
    if n > 0 {
        lemma_sum_over_ext(alloc, s1, s2, r, n - 1);
    }
}

/// The units held by the threads of a list of distinct threads, summed in
/// list order, equal the sum over the set of those threads.
proof fn lemma_seq_sum_as_set(alloc: Seq<Seq<usize>>, order: Seq<int>, r: int)
    requires
        order.no_duplicates(),
        forall|j: int| 0 <= j < order.len() ==> 0 <= #[trigger] order[j] < MAX_THREAD,
    ensures
        seq_sum(alloc, order, r) == sum_over(alloc, order.to_set(), r, MAX_THREAD as int),
    decreases order.len(),
{
    if order.len() == 0 {
        assert(order.to_set() =~= Set::<int>::empty());
        lemma_sum_over_empty(alloc, r, MAX_THREAD as int);
    } else {
        let prefix = order.drop_last();
        let x = order.last();
        assert forall|j: int| 0 <= j < prefix.len() implies 0 <= #[trigger] prefix[j] < MAX_THREAD by {
            assert(prefix[j] == order[j]);
        }
        lemma_seq_sum_as_set(alloc, prefix, r);
        assert(order =~= prefix.push(x));
        assert(order.to_set() =~= prefix.to_set().insert(x)) by {
            assert forall|y: int| order.to_set().contains(y) <==> prefix.to_set().insert(x).contains(
                y,
            ) by {
                if order.contains(y) {
                    let j = choose|j: int| 0 <= j < order.len() && order[j] == y;
                    if j < prefix.len() {
                        assert(prefix[j] == y);
                    }
                }
                if prefix.contains(y) {
                    let j = choose|j: int| 0 <= j < prefix.len() && prefix[j] == y;
                    assert(order[j] == y);
                }
            }
        }
        assert(!prefix.to_set().contains(x)) by {
            if prefix.contains(x) {
                let j = choose|j: int| 0 <= j < prefix.len() && prefix[j] == x;
                assert(order[j] == order[order.len() - 1]);
            }
        }
        assert(0 <= x < MAX_THREAD) by {
            assert(order[order.len() - 1] == x);
        }
        lemma_sum_over_insert(alloc, prefix.to_set(), x, r, MAX_THREAD as int);
    }
}

/// The threads of a list of distinct threads hold at most what all threads
/// hold together.
proof fn lemma_seq_sum_le_total(alloc: Seq<Seq<usize>>, order: Seq<int>, r: int)
    requires
        order.no_duplicates(),
        forall|j: int| 0 <= j < order.len() ==> 0 <= #[trigger] order[j] < MAX_THREAD,
    ensures
        0 <= seq_sum(alloc, order, r) <= held_total(alloc, r),
{
    lemma_seq_sum_as_set(alloc, order, r);
    lemma_sum_over_mono(
        alloc,
        order.to_set(),
        set_int_range(0, MAX_THREAD as int),
        r,
        MAX_THREAD as int,
    );
    lemma_sum_over_mono(alloc, Set::empty(), order.to_set(), r, MAX_THREAD as int);
    lemma_sum_over_empty(alloc, r, MAX_THREAD as int);
}

proof fn lemma_sum_over_empty(alloc: Seq<Seq<usize>>, r: int, n: int)
    ensures
        sum_over(alloc, Set::empty(), r, n) == 0,
    decreases n,
{
    if n > 0 {
        lemma_sum_over_empty(alloc, r, n - 1);
    }
}

/// Changing one entry of the matrix changes the sums of its column by the
/// difference and leaves the other columns alone.
proof fn lemma_sum_over_set(
    alloc: Seq<Seq<usize>>,
    s: Set<int>,
    t: int,
    r: int,
    v: usize,
    c: int,
    n: int,
)
    requires
        0 <= t < alloc.len(),
        0 <= r < alloc[t].len(),
        0 <= c < alloc[t].len(),
        n <= alloc.len(),
    ensures
        sum_over(matrix_set(alloc, t, r, v), s, c, n) == sum_over(alloc, s, c, n) + if c == r
            && s.contains(t) && t < n {
            v - alloc[t][r]
        } else {
            0
        },
    decreases n,
{
    if n > 0 {
        lemma_sum_over_set(alloc, s, t, r, v, c, n - 1);
        let m = matrix_set(alloc, t, r, v);
        if n - 1 == t {
            assert(m[t][r] == v);
        } else {
            assert(m[n - 1] == alloc[n - 1]);
        }
        if n - 1 == t && c != r {
            assert(m[t][c] == alloc[t][c]);
        }
    }
}

/// Column totals after changing entry `(t, r)` to `v`.
proof fn lemma_held_total_set(alloc: Seq<Seq<usize>>, t: int, r: int, v: usize, c: int)
    requires
        is_matrix(alloc),
        0 <= t < MAX_THREAD,
        0 <= r < MAX_LOCK,
        0 <= c < MAX_LOCK,
    ensures
        held_total(matrix_set(alloc, t, r, v), c) == held_total(alloc, c) + if c == r {
            v - alloc[t][r]
        } else {
            0
        },
{
    lemma_sum_over_set(alloc, set_int_range(0, MAX_THREAD as int), t, r, v, c, MAX_THREAD as int);
}

/// A list of distinct threads has at most `MAX_THREAD` entries.
proof fn lemma_order_len(order: Seq<int>)
    requires
        order.no_duplicates(),
        forall|j: int| 0 <= j < order.len() ==> 0 <= #[trigger] order[j] < MAX_THREAD,
    ensures
        order.len() <= MAX_THREAD,
{
    order.unique_seq_to_set();
    lemma_int_range(0, MAX_THREAD as int);
    assert(order.to_set().subset_of(set_int_range(0, MAX_THREAD as int))) by {
        assert forall|y: int| order.to_set().contains(y) implies set_int_range(
            0,
            MAX_THREAD as int,
        ).contains(y) by {
            let j = choose|j: int| 0 <= j < order.len() && order[j] == y;
            assert(order[j] == y);
        }
    }
    lemma_len_subset(order.to_set(), set_int_range(0, MAX_THREAD as int));
}

/// Finds the first entry of `s`, at or after `j`, that lies outside `f`.
proof fn lemma_first_outside(s: Seq<int>, f: Set<int>, j: int) -> (k: int)
    requires
        0 <= j <= s.len(),
        forall|i: int| 0 <= i < j ==> f.contains(#[trigger] s[i]),
        exists|i: int| j <= i < s.len() && !f.contains(#[trigger] s[i]),
    ensures
        j <= k < s.len(),
        !f.contains(s[k]),
        forall|i: int| 0 <= i < k ==> f.contains(#[trigger] s[i]),
    decreases s.len() - j,
{
    if !f.contains(s[j]) {
        j
    } else {
        lemma_first_outside(s, f, j + 1)
    }
}

/// When the threads in `order` have finished and every other thread waits
/// for more than is then free, no order lets all threads finish.
pub proof fn lemma_stuck_is_unsafe(
    avail: Seq<usize>,
    alloc: Seq<Seq<usize>>,
    need: Seq<Seq<usize>>,
    order: Seq<int>,
    u: int,
)
    requires
        is_matrix(alloc),
        is_matrix(need),
        avail.len() == MAX_LOCK,
        order.no_duplicates(),
        forall|j: int| 0 <= j < order.len() ==> 0 <= #[trigger] order[j] < MAX_THREAD,
        0 <= u < MAX_THREAD,
        !order.contains(u),
        forall|t: int|
            0 <= t < MAX_THREAD && !order.contains(t) ==> !#[trigger] satisfiable(
                avail,
                alloc,
                need,
                order,
                t,
            ),
    ensures
        !is_safe_state(avail, alloc, need),
{
    if is_safe_state(avail, alloc, need) {
        let s = choose|s: Seq<int>|
            #![trigger is_safe_order(avail, alloc, need, s)]
            is_safe_order(avail, alloc, need, s) && forall|t: int|
                0 <= t < MAX_THREAD ==> #[trigger] s.contains(t);
        let f = order.to_set();
        assert(s.contains(u));
        let iu = choose|i: int| 0 <= i < s.len() && s[i] == u;
        assert(!f.contains(s[iu]));
        let k = lemma_first_outside(s, f, 0);
        let done = s.take(k);
        let t = s[k];
        assert(satisfiable(avail, alloc, need, s.take(k), s[k]));
        assert(done.no_duplicates()) by {
            assert forall|a: int, b: int| 0 <= a < b < done.len() implies done[a] != done[b] by {
                assert(done[a] == s[a] && done[b] == s[b]);
            }
        }
        assert forall|j: int| 0 <= j < done.len() implies 0 <= #[trigger] done[j]
            < MAX_THREAD by {
            assert(done[j] == s[j]);
        }
        assert(!order.contains(t));
        assert(satisfiable(avail, alloc, need, order, t)) by {
            assert forall|r: int| 0 <= r < MAX_LOCK implies need[t][r] <= avail[r]
                + #[trigger] seq_sum(alloc, order, r) by {
                lemma_seq_sum_as_set(alloc, done, r);
                lemma_seq_sum_as_set(alloc, order, r);
                assert forall|x: int|
                    0 <= x < MAX_THREAD && #[trigger] done.to_set().contains(x) implies f.contains(
                    x,
                ) by {
                    let j = choose|j: int| 0 <= j < done.len() && done[j] == x;
                    assert(s[j] == x);
                }
                lemma_sum_over_mono(alloc, done.to_set(), f, r, MAX_THREAD as int);
                assert(need[t][r] <= avail[r] + seq_sum(alloc, done, r));
            }
        }
    }
}

/// A list of distinct threads that can finish in order and lists every
/// thread shows that the state is safe.
pub proof fn lemma_full_order_is_safe(
    avail: Seq<usize>,
    alloc: Seq<Seq<usize>>,
    need: Seq<Seq<usize>>,
    order: Seq<int>,
)
    requires
        is_safe_order(avail, alloc, need, order),
        forall|t: int| 0 <= t < MAX_THREAD ==> #[trigger] order.contains(t),
    ensures
        is_safe_state(avail, alloc, need),
{
}

/// A single entry is at most the total of its column.
proof fn lemma_entry_le_total(alloc: Seq<Seq<usize>>, t: int, r: int)
    requires
        0 <= t < MAX_THREAD,
    ensures
        alloc[t][r] <= held_total(alloc, r),
{
    lemma_sum_over_empty(alloc, r, MAX_THREAD as int);
    lemma_sum_over_insert(alloc, Set::empty(), t, r, MAX_THREAD as int);
    lemma_sum_over_mono(
        alloc,
        Set::empty().insert(t),
        set_int_range(0, MAX_THREAD as int),
        r,
        MAX_THREAD as int,
    );
}

/// A column of zeros sums to zero.
proof fn lemma_sum_over_zero_col(alloc: Seq<Seq<usize>>, s: Set<int>, r: int, n: int)
    requires
        forall|t: int| 0 <= t < n ==> #[trigger] alloc[t][r] == 0,
    ensures
        sum_over(alloc, s, r, n) == 0,
    decreases n,
{
    if n > 0 {
        lemma_sum_over_zero_col(alloc, s, r, n - 1);
    }
}

/// `need` after a thread asks for one more unit of lock `id`; a retried
/// request was counted already.
pub open spec fn requested_need(
    need: Seq<Seq<usize>>,
    tid: int,
    id: int,
    retry: bool,
) -> Seq<Seq<usize>> {
    if retry {
        need
    } else {
        matrix_set(need, tid, id, (need[tid][id] + 1) as usize)
    }
}

// ---------------------------------------------------------------------------
// The detector
// ---------------------------------------------------------------------------

/// Bookkeeping of the banker's algorithm.
pub struct DeadlockDetectorInner {
    allocator: RecycleAllocator,
    available: Vec<usize>,
    allocation: Vec<Vec<usize>>,
    need: Vec<Vec<usize>>,
}

/// A `MAX_THREAD` by `MAX_LOCK` matrix of zeros.
fn zero_matrix() -> (m: Vec<Vec<usize>>)
    ensures
        is_matrix(rows(m@)),
        forall|t: int, r: int|
            0 <= t < MAX_THREAD && 0 <= r < MAX_LOCK ==> #[trigger] rows(m@)[t][r] == 0,
{
    let mut m: Vec<Vec<usize>> = Vec::new();
    let mut t: usize = 0;
    while t < MAX_THREAD
        invariant
            t <= MAX_THREAD,
            m@.len() == t,
            forall|i: int| 0 <= i < t ==> (#[trigger] m@[i])@.len() == MAX_LOCK,
            forall|i: int, r: int| 0 <= i < t && 0 <= r < MAX_LOCK ==> #[trigger] m@[i]@[r] == 0,
        decreases MAX_THREAD - t,
    {
        m.push(zeros(MAX_LOCK));
        t = t + 1;
    }
    m
}

/// A vector of `n` zeros.
fn zeros(n: usize) -> (v: Vec<usize>)
    ensures
        v@.len() == n,
        forall|i: int| 0 <= i < n ==> #[trigger] v@[i] == 0,
{
    let mut v: Vec<usize> = Vec::new();
    let mut i: usize = 0;
    while i < n
        invariant
            i <= n,
            v@.len() == i,
            forall|j: int| 0 <= j < i ==> #[trigger] v@[j] == 0,
        decreases n - i,
    {
        v.push(0);
        i = i + 1;
    }
    v
}

impl DeadlockDetectorInner {
    /// Free units per lock.
    pub closed spec fn available_view(&self) -> Seq<usize> {
        self.available@
    }

    /// Units held, per thread and lock.
    pub closed spec fn allocation_view(&self) -> Seq<Seq<usize>> {
        rows(self.allocation@)
    }

    /// Units waited for, per thread and lock.
    pub closed spec fn need_view(&self) -> Seq<Seq<usize>> {
        rows(self.need@)
    }

    /// State of the allocator of lock identifiers.
    pub closed spec fn id_state(&self) -> (nat, Seq<usize>) {
        self.allocator@
    }

    pub open spec fn wf(&self) -> bool {
        &&& crate::recycle::recycle_state_wf(self.id_state())
        &&& self.id_state().1.len() == 0
        &&& self.available_view().len() == MAX_LOCK
        &&& is_matrix(self.allocation_view())
        &&& is_matrix(self.need_view())
        &&& forall|r: int|
            0 <= r < MAX_LOCK ==> #[trigger] self.available_view()[r] + held_total(
                self.allocation_view(),
                r,
            ) <= usize::MAX
        &&& forall|r: int|
            self.id_state().0 <= r < MAX_LOCK ==> #[trigger] self.available_view()[r] == 0
        &&& forall|t: int, r: int|
            0 <= t < MAX_THREAD && self.id_state().0 <= r < MAX_LOCK ==> #[trigger] self.allocation_view()[t][r] == 0
    }

    /// Thread `tid` now holds one more unit of lock `id`.
    fn add_allocation(&mut self, tid: usize, id: usize)
        requires
            old(self).wf(),
            tid < MAX_THREAD,
            id < MAX_LOCK,
            old(self).available_view()[id as int] >= 1,
        ensures
            final(self).wf(),
            forall|r: int|
                0 <= r < MAX_LOCK ==> #[trigger] final(self).available_view()[r] + held_total(
                    final(self).allocation_view(),
                    r,
                ) == old(self).available_view()[r] + held_total(old(self).allocation_view(), r),
            final(self).id_state() == old(self).id_state(),
            final(self).need_view() == old(self).need_view(),
            final(self).available_view() == old(self).available_view().update(
                id as int,
                (old(self).available_view()[id as int] - 1) as usize,
            ),
            final(self).allocation_view() == matrix_set(
                old(self).allocation_view(),
                tid as int,
                id as int,
                (old(self).allocation_view()[tid as int][id as int] + 1) as usize,
            ),
    {
        let ghost a0 = self.allocation_view();
        let ghost av0 = self.available_view();
        let ghost v = (a0[tid as int][id as int] + 1) as usize;
        proof {
            lemma_entry_le_total(a0, tid as int, id as int);
        }
        self.allocation[tid][id] += 1;
        self.available[id] -= 1;
        proof {
            let a1 = self.allocation_view();
            assert(a1 =~= matrix_set(a0, tid as int, id as int, v));
            assert forall|r: int| 0 <= r < MAX_LOCK implies #[trigger] self.available_view()[r]
                + held_total(self.allocation_view(), r) == av0[r] + held_total(a0, r) by {
                lemma_held_total_set(a0, tid as int, id as int, v, r);
            }
            assert forall|r: int| 0 <= r < MAX_LOCK implies #[trigger] self.available_view()[r]
                + held_total(self.allocation_view(), r) <= usize::MAX by {
                assert(av0[r] + held_total(a0, r) <= usize::MAX);
            }
        }
    }

    /// Thread `tid` gives back one unit of lock `id`.
    pub fn sub_allocation(&mut self, tid: usize, id: usize)
        requires
            old(self).wf(),
            tid < MAX_THREAD,
            id < MAX_LOCK,
            old(self).allocation_view()[tid as int][id as int] >= 1,
        ensures
            final(self).wf(),
            forall|r: int|
                0 <= r < MAX_LOCK ==> #[trigger] final(self).available_view()[r] + held_total(
                    final(self).allocation_view(),
                    r,
                ) == old(self).available_view()[r] + held_total(old(self).allocation_view(), r),
            final(self).id_state() == old(self).id_state(),
            final(self).need_view() == old(self).need_view(),
            final(self).available_view() == old(self).available_view().update(
                id as int,
                (old(self).available_view()[id as int] + 1) as usize,
            ),
            final(self).allocation_view() == matrix_set(
                old(self).allocation_view(),
                tid as int,
                id as int,
                (old(self).allocation_view()[tid as int][id as int] - 1) as usize,
            ),
    {
        let ghost a0 = self.allocation_view();
        let ghost av0 = self.available_view();
        let ghost v = (a0[tid as int][id as int] - 1) as usize;
        proof {
            lemma_entry_le_total(a0, tid as int, id as int);
        }
        self.allocation[tid][id] -= 1;
        self.available[id] += 1;
        proof {
            let a1 = self.allocation_view();
            assert(a1 =~= matrix_set(a0, tid as int, id as int, v));
            assert forall|r: int| 0 <= r < MAX_LOCK implies #[trigger] self.available_view()[r]
                + held_total(self.allocation_view(), r) == av0[r] + held_total(a0, r) by {
                lemma_held_total_set(a0, tid as int, id as int, v, r);
            }
            assert forall|r: int| 0 <= r < MAX_LOCK implies #[trigger] self.available_view()[r]
                + held_total(self.allocation_view(), r) <= usize::MAX by {
                assert(av0[r] + held_total(a0, r) <= usize::MAX);
            }
        }
    }

    /// Thread `tid` now waits for one more unit of lock `id`.
    pub fn add_need(&mut self, tid: usize, id: usize)
        requires
            old(self).wf(),
            tid < MAX_THREAD,
            id < MAX_LOCK,
            old(self).need_view()[tid as int][id as int] < usize::MAX,
        ensures
            final(self).wf(),
            final(self).id_state() == old(self).id_state(),
            final(self).available_view() == old(self).available_view(),
            final(self).allocation_view() == old(self).allocation_view(),
            final(self).need_view() == matrix_set(
                old(self).need_view(),
                tid as int,
                id as int,
                (old(self).need_view()[tid as int][id as int] + 1) as usize,
            ),
    {
        let ghost n0 = self.need_view();
        self.need[tid][id] += 1;
        proof {
            assert(self.need_view() =~= matrix_set(
                n0,
                tid as int,
                id as int,
                (n0[tid as int][id as int] + 1) as usize,
            ));
        }
    }

    /// Thread `tid` waits for one unit less of lock `id`.
    fn sub_need(&mut self, tid: usize, id: usize)
        requires
            old(self).wf(),
            tid < MAX_THREAD,
            id < MAX_LOCK,
            old(self).need_view()[tid as int][id as int] >= 1,
        ensures
            final(self).wf(),
            final(self).id_state() == old(self).id_state(),
            final(self).available_view() == old(self).available_view(),
            final(self).allocation_view() == old(self).allocation_view(),
            final(self).need_view() == matrix_set(
                old(self).need_view(),
                tid as int,
                id as int,
                (old(self).need_view()[tid as int][id as int] - 1) as usize,
            ),
    {
        let ghost n0 = self.need_view();
        self.need[tid][id] -= 1;
        proof {
            assert(self.need_view() =~= matrix_set(
                n0,
                tid as int,
                id as int,
                (n0[tid as int][id as int] - 1) as usize,
            ));
        }
    }

    /// Lock `id` starts with `count` free units, none of them held or waited
    /// for by thread `tid`.
    fn push_lock_available(&mut self, tid: usize, id: usize, count: usize)
        requires
            old(self).available_view().len() == MAX_LOCK,
            is_matrix(old(self).allocation_view()),
            is_matrix(old(self).need_view()),
            tid < MAX_THREAD,
            id < MAX_LOCK,
        ensures
            final(self).id_state() == old(self).id_state(),
            final(self).available_view() == old(self).available_view().update(id as int, count),
            final(self).allocation_view() == matrix_set(
                old(self).allocation_view(),
                tid as int,
                id as int,
                0,
            ),
            final(self).need_view() == matrix_set(old(self).need_view(), tid as int, id as int, 0),
    {
        let ghost a0 = self.allocation_view();
        let ghost n0 = self.need_view();
        proof {
            assert(a0[tid as int] == self.allocation@[tid as int]@);
            assert(n0[tid as int] == self.need@[tid as int]@);
        }
        self.available[id] = count;
        self.allocation[tid][id] = 0;
        self.need[tid][id] = 0;
        proof {
            assert(self.allocation_view() =~= matrix_set(a0, tid as int, id as int, 0));
            assert(self.need_view() =~= matrix_set(n0, tid as int, id as int, 0));
        }
    }
}


/// The answer to a request by thread `tid` for one unit of lock `id`:
/// `DEADLOCK_SIGNAL` when no order lets all threads finish once the request
/// is counted, else `WAIT_SIGNAL` when no unit is free, else 0.
pub open spec fn request_answer(d: DeadlockDetector, tid: usize, id: usize, retry: bool) -> i32 {
    let need = requested_need(d.need_view(), tid as int, id as int, retry);
    if !is_safe_state(d.available_view(), d.allocation_view(), need) {
        DEADLOCK_SIGNAL
    } else if d.available_view()[id as int] == 0 {
        WAIT_SIGNAL
    } else {
        0
    }
}

/// `d1` is `d0` after the request: the request is counted in `need`, and
/// when granted (answer 0) one unit moves from `available` to the thread
/// and out of its `need`.
pub open spec fn request_applied(
    d0: DeadlockDetector,
    d1: DeadlockDetector,
    tid: usize,
    id: usize,
    retry: bool,
) -> bool {
    let avail = d0.available_view();
    let alloc = d0.allocation_view();
    let need = requested_need(d0.need_view(), tid as int, id as int, retry);
    &&& d1.id_state() == d0.id_state()
    &&& if request_answer(d0, tid, id, retry) != 0 {
        &&& d1.available_view() == avail
        &&& d1.allocation_view() == alloc
        &&& d1.need_view() == need
    } else {
        &&& d1.available_view() == avail.update(id as int, (avail[id as int] - 1) as usize)
        &&& d1.allocation_view() == matrix_set(
            alloc,
            tid as int,
            id as int,
            (alloc[tid as int][id as int] + 1) as usize,
        )
        &&& d1.need_view() == matrix_set(
            need,
            tid as int,
            id as int,
            (need[tid as int][id as int] - 1) as usize,
        )
    }
}

/// `d1` is `d0` after thread `tid` gave back one unit of lock `id`.
pub open spec fn released(d0: DeadlockDetector, d1: DeadlockDetector, tid: usize, id: usize) -> bool {
    &&& d1.id_state() == d0.id_state()
    &&& d1.need_view() == d0.need_view()
    &&& d1.available_view() == d0.available_view().update(
        id as int,
        (d0.available_view()[id as int] + 1) as usize,
    )
    &&& d1.allocation_view() == matrix_set(
        d0.allocation_view(),
        tid as int,
        id as int,
        (d0.allocation_view()[tid as int][id as int] - 1) as usize,
    )
}

/// Deadlock avoidance for the locks of one process.
pub struct DeadlockDetector {
    inner: DeadlockDetectorInner,
}

impl DeadlockDetector {
    /// Free units per lock.
    pub closed spec fn available_view(&self) -> Seq<usize> {
        self.inner.available_view()
    }

    /// Units held, per thread and lock.
    pub closed spec fn allocation_view(&self) -> Seq<Seq<usize>> {
        self.inner.allocation_view()
    }

    /// Units waited for, per thread and lock.
    pub closed spec fn need_view(&self) -> Seq<Seq<usize>> {
        self.inner.need_view()
    }

    /// State of the allocator of lock identifiers.
    pub closed spec fn id_state(&self) -> (nat, Seq<usize>) {
        self.inner.id_state()
    }

    pub closed spec fn wf(&self) -> bool {
        self.inner.wf()
    }

    /// The identifier the next call of `alloc_id` hands out.
    pub open spec fn next_lock_id(&self) -> nat {
        self.id_state().0
    }

    /// Whether the state is safe with the requests counted so far.
    pub open spec fn is_safe(&self) -> bool {
        is_safe_state(self.available_view(), self.allocation_view(), self.need_view())
    }

    /// The shape that a well-formed detector has.
    pub proof fn lemma_wf(&self)
        requires
            self.wf(),
        ensures
            self.available_view().len() == MAX_LOCK,
            is_matrix(self.allocation_view()),
            is_matrix(self.need_view()),
            self.id_state().1.len() == 0,
            forall|r: int|
                self.next_lock_id() <= r < MAX_LOCK ==> #[trigger] self.available_view()[r] == 0,
            forall|t: int, r: int|
                0 <= t < MAX_THREAD && self.next_lock_id() <= r < MAX_LOCK
                    ==> #[trigger] self.allocation_view()[t][r] == 0,
            forall|r: int|
                0 <= r < MAX_LOCK ==> #[trigger] self.available_view()[r] + held_total(
                    self.allocation_view(),
                    r,
                ) <= usize::MAX,
            forall|t: int, r: int|
                0 <= t < MAX_THREAD && 0 <= r < MAX_LOCK ==> #[trigger] self.allocation_view()[t][r]
                    <= held_total(self.allocation_view(), r),
    {
        assert forall|t: int, r: int|
            0 <= t < MAX_THREAD && 0 <= r < MAX_LOCK implies #[trigger] self.allocation_view()[t][r]
            <= held_total(self.allocation_view(), r) by {
            lemma_entry_le_total(self.allocation_view(), t, r);
        }
    }

    /// A detector with no lock in use; identifier 0 is kept for itself, so
    /// the first lock gets identifier 1.
    pub fn new() -> (r: Self)
        ensures
            r.wf(),
            r.next_lock_id() == 1,
            forall|i: int| 0 <= i < MAX_LOCK ==> #[trigger] r.available_view()[i] == 0,
            forall|t: int, i: int|
                0 <= t < MAX_THREAD && 0 <= i < MAX_LOCK ==> #[trigger] r.allocation_view()[t][i]
                    == 0,
            forall|t: int, i: int|
                0 <= t < MAX_THREAD && 0 <= i < MAX_LOCK ==> #[trigger] r.need_view()[t][i] == 0,
    {
        let mut allocator = RecycleAllocator::new();
        let _inner_lock_id = allocator.allocate();
        let available = zeros(MAX_LOCK);
        let allocation = zero_matrix();
        let need = zero_matrix();
        let inner = DeadlockDetectorInner { allocator, available, allocation, need };
        proof {
            assert forall|i: int| 0 <= i < MAX_LOCK implies #[trigger] inner.available_view()[i]
                + held_total(inner.allocation_view(), i) <= usize::MAX by {
                lemma_sum_over_zero_col(
                    inner.allocation_view(),
                    set_int_range(0, MAX_THREAD as int),
                    i,
                    MAX_THREAD as int,
                );
            }
        }
        DeadlockDetector { inner }
    }

    /// Registers thread `tid`; every thread slot exists from the start, so
    /// nothing changes.
    pub fn push_thread_available(&mut self, _tid: usize)
        ensures
            *final(self) == *old(self),
    {
    }

    /// Units of lock `id` that thread `tid` asked for and does not hold yet.
    pub fn need_of(&self, tid: usize, id: usize) -> (n: usize)
        requires
            self.wf(),
            tid < MAX_THREAD,
            id < MAX_LOCK,
        ensures
            n == self.need_view()[tid as int][id as int],
    {
        proof {
            assert(self.inner.need_view()[tid as int] == self.inner.need@[tid as int]@);
        }
        self.inner.need[tid][id]
    }

    /// Units of lock `id` that thread `tid` holds.
    pub fn allocation_of(&self, tid: usize, id: usize) -> (n: usize)
        requires
            self.wf(),
            tid < MAX_THREAD,
            id < MAX_LOCK,
        ensures
            n == self.allocation_view()[tid as int][id as int],
    {
        proof {
            assert(self.inner.allocation_view()[tid as int] == self.inner.allocation@[tid as int]@);
        }
        self.inner.allocation[tid][id]
    }

    /// Hands out a fresh lock identifier for a lock with `count` free units.
    pub fn alloc_id(&mut self, tid: usize, count: usize) -> (id: usize)
        requires
            old(self).wf(),
            tid < MAX_THREAD,
            old(self).next_lock_id() < MAX_LOCK,
        ensures
            final(self).wf(),
            id == old(self).next_lock_id(),
            final(self).next_lock_id() == old(self).next_lock_id() + 1,
            final(self).available_view() == old(self).available_view().update(id as int, count),
            final(self).allocation_view() == old(self).allocation_view(),
            forall|t: int| 0 <= t < MAX_THREAD ==> #[trigger] final(self).allocation_view()[t][id as int] == 0,
            final(self).need_view() == matrix_set(old(self).need_view(), tid as int, id as int, 0),
    {
        let ghost a0 = self.inner.allocation_view();
        let id = self.inner.allocator.allocate();
        self.inner.push_lock_available(tid, id, count);
        proof {
            assert(self.inner.allocation_view() =~= a0) by {
                assert(a0[tid as int].update(id as int, 0) =~= a0[tid as int]);
            }
            lemma_sum_over_zero_col(
                a0,
                set_int_range(0, MAX_THREAD as int),
                id as int,
                MAX_THREAD as int,
            );
        }
        id
    }

    /// Thread `tid` gives back one unit of lock `id`.
    pub fn release(&mut self, tid: usize, id: usize)
        requires
            old(self).wf(),
            tid < MAX_THREAD,
            id < MAX_LOCK,
            old(self).allocation_view()[tid as int][id as int] >= 1,
        ensures
            final(self).wf(),
            forall|r: int|
                0 <= r < MAX_LOCK ==> #[trigger] final(self).available_view()[r] + held_total(
                    final(self).allocation_view(),
                    r,
                ) == old(self).available_view()[r] + held_total(old(self).allocation_view(), r),
            final(self).id_state() == old(self).id_state(),
            final(self).need_view() == old(self).need_view(),
            final(self).available_view() == old(self).available_view().update(
                id as int,
                (old(self).available_view()[id as int] + 1) as usize,
            ),
            final(self).allocation_view() == matrix_set(
                old(self).allocation_view(),
                tid as int,
                id as int,
                (old(self).allocation_view()[tid as int][id as int] - 1) as usize,
            ),
    {
        self.inner.sub_allocation(tid, id);
    }

    /// Thread `tid` asks for one unit of lock `id` (`retry`: the request was
    /// counted by an earlier call that answered `WAIT_SIGNAL`).
    ///
    /// The request is counted in `need`. If no order lets all threads finish
    /// (the banker's safety test), the answer is `DEADLOCK_SIGNAL`; else if
    /// no unit of the lock is free, `WAIT_SIGNAL`; else the unit moves from
    /// `available` to the thread and the answer is 0.
    pub fn detect_deadlock(&mut self, tid: usize, id: usize, retry: bool) -> (res: i32)
        requires
            old(self).wf(),
            tid < MAX_THREAD,
            id < MAX_LOCK,
            !retry ==> old(self).need_view()[tid as int][id as int] < usize::MAX,
            retry ==> old(self).need_view()[tid as int][id as int] >= 1,
        ensures
            final(self).wf(),
            forall|r: int|
                0 <= r < MAX_LOCK ==> #[trigger] final(self).available_view()[r] + held_total(
                    final(self).allocation_view(),
                    r,
                ) == old(self).available_view()[r] + held_total(old(self).allocation_view(), r),
            final(self).id_state() == old(self).id_state(),
            res == request_answer(*old(self), tid, id, retry),
            request_applied(*old(self), *final(self), tid, id, retry),
    {
        let mut finishes: Vec<bool> = Vec::new();
        let mut t: usize = 0;
        while t < MAX_THREAD
            invariant
                t <= MAX_THREAD,
                finishes@.len() == t,
                forall|i: int| 0 <= i < t ==> !#[trigger] finishes@[i],
            decreases MAX_THREAD - t,
        {
            finishes.push(false);
            t = t + 1;
        }
        let mut work: Vec<usize> = Vec::new();
        let mut r: usize = 0;
        while r < MAX_LOCK
            invariant
                self.wf(),
                r <= MAX_LOCK,
                work@.len() == r,
                forall|i: int| 0 <= i < r ==> #[trigger] work@[i] == self.available_view()[i],
            decreases MAX_LOCK - r,
        {
            work.push(self.inner.available[r]);
            r = r + 1;
        }
        if !retry {
            self.inner.add_need(tid, id);
        }
        let ghost avail = self.available_view();
        let ghost alloc = self.allocation_view();
        let ghost need = self.need_view();
        let ghost mut order: Seq<int> = Seq::empty();
        proof {
            assert forall|i: int| 0 <= i < MAX_LOCK implies #[trigger] work@[i] == avail[i]
                + seq_sum(alloc, order, i) by {}
        }
        let mut run = true;
        while run
            invariant
                self.wf(),
                self.available_view() == avail,
                self.allocation_view() == alloc,
                self.need_view() == need,
                finishes@.len() == MAX_THREAD,
                work@.len() == MAX_LOCK,
                order.len() <= MAX_THREAD,
                is_safe_order(avail, alloc, need, order),
                forall|i: int| 0 <= i < MAX_THREAD ==> #[trigger] finishes@[i] == order.contains(i),
                forall|i: int|
                    0 <= i < MAX_LOCK ==> #[trigger] work@[i] == avail[i] + seq_sum(alloc, order, i),
                !run ==> forall|i: int|
                    0 <= i < MAX_THREAD && !#[trigger] finishes@[i] ==> !satisfiable(
                        avail,
                        alloc,
                        need,
                        order,
                        i,
                    ),
            decreases (MAX_THREAD - order.len()) * 2 + if run {
                1int
            } else {
                0
            },
        {
            let ghost start_len = order.len();
            run = false;
            let mut thread_id: usize = 0;
            while thread_id < MAX_THREAD
                invariant
                    self.wf(),
                    self.available_view() == avail,
                    self.allocation_view() == alloc,
                    self.need_view() == need,
                    thread_id <= MAX_THREAD,
                    finishes@.len() == MAX_THREAD,
                    work@.len() == MAX_LOCK,
                    order.len() <= MAX_THREAD,
                    is_safe_order(avail, alloc, need, order),
                    forall|i: int| 0 <= i < MAX_THREAD ==> #[trigger] finishes@[i] == order.contains(i),
                    forall|i: int|
                        0 <= i < MAX_LOCK ==> #[trigger] work@[i] == avail[i] + seq_sum(alloc, order, i),
                    run ==> order.len() > start_len,
                    !run ==> order.len() == start_len,
                    !run ==> forall|i: int|
                        0 <= i < thread_id && !#[trigger] finishes@[i] ==> !satisfiable(
                            avail,
                            alloc,
                            need,
                            order,
                            i,
                        ),
                decreases MAX_THREAD - thread_id,
            {
                if !finishes[thread_id] {
                    let ghost ti = thread_id as int;
                    proof {
                        assert(need[ti] == self.inner.need@[ti]@);
                        assert(alloc[ti] == self.inner.allocation@[ti]@);
                        assert(self.inner.need@.len() == need.len());
                        assert(self.inner.allocation@.len() == alloc.len());
                    }
                    let mut all_need_satisfied = true;
                    let mut mutex_id: usize = 0;
                    while mutex_id < MAX_LOCK && all_need_satisfied
                        invariant
                            self.need_view() == need,
                            need[ti] == self.inner.need@[ti]@,
                            self.inner.need@.len() == MAX_THREAD,
                            thread_id == ti,
                            is_matrix(need),
                            0 <= ti < MAX_THREAD,
                            work@.len() == MAX_LOCK,
                            mutex_id <= MAX_LOCK,
                            all_need_satisfied ==> forall|i: int|
                                0 <= i < mutex_id ==> need[ti][i] <= #[trigger] work@[i],
                            !all_need_satisfied ==> exists|i: int|
                                0 <= i < MAX_LOCK && need[ti][i] > #[trigger] work@[i],
                        decreases MAX_LOCK - mutex_id + if all_need_satisfied {
                            1int
                        } else {
                            0
                        },
                    {
                        if self.inner.need[thread_id][mutex_id] > work[mutex_id] {
                            all_need_satisfied = false;
                        } else {
                            mutex_id = mutex_id + 1;
                        }
                    }
                    if !all_need_satisfied {
                        proof {
                            let i = choose|i: int|
                                0 <= i < MAX_LOCK && need[ti][i] > #[trigger] work@[i];
                            assert(need[ti][i] > avail[i] + seq_sum(alloc, order, i));
                        }
                    } else {
                        let ghost next = order.push(ti);
                        proof {
                            assert(satisfiable(avail, alloc, need, order, ti)) by {
                                assert forall|i: int| 0 <= i < MAX_LOCK implies need[ti][i]
                                    <= avail[i] + #[trigger] seq_sum(alloc, order, i) by {
                                    assert(need[ti][i] <= work@[i]);
                                }
                            }
                            assert(!order.contains(ti));
                            assert(next.no_duplicates()) by {
                                assert forall|a: int, b: int|
                                    0 <= a < b < next.len() implies next[a] != next[b] by {
                                    if b == order.len() {
                                        assert(next[a] == order[a]);
                                    } else {
                                        assert(next[a] == order[a] && next[b] == order[b]);
                                    }
                                }
                            }
                            assert forall|j: int| 0 <= j < next.len() implies 0 <= #[trigger] next[j]
                                < MAX_THREAD by {
                                if j < order.len() {
                                    assert(next[j] == order[j]);
                                }
                            }
                            lemma_order_len(next);
                        }
                        let mut m: usize = 0;
                        while m < MAX_LOCK
                            invariant
                                self.allocation_view() == alloc,
                                alloc[ti] == self.inner.allocation@[ti]@,
                                self.inner.allocation@.len() == MAX_THREAD,
                                thread_id == ti,
                                satisfiable(avail, alloc, need, order, ti),
                                self.wf(),
                                self.available_view() == avail,
                                0 <= ti < MAX_THREAD,
                                next == order.push(ti),
                                next.no_duplicates(),
                                forall|j: int| 0 <= j < next.len() ==> 0 <= #[trigger] next[j] < MAX_THREAD,
                                m <= MAX_LOCK,
                                work@.len() == MAX_LOCK,
                                forall|i: int|
                                    0 <= i < m ==> #[trigger] work@[i] == avail[i] + seq_sum(
                                        alloc,
                                        next,
                                        i,
                                    ),
                                forall|i: int|
                                    m <= i < MAX_LOCK ==> #[trigger] work@[i] == avail[i] + seq_sum(
                                        alloc,
                                        order,
                                        i,
                                    ),
                            decreases MAX_LOCK - m,
                        {
                            proof {
                                lemma_seq_sum_push(alloc, order, ti, m as int);
                                lemma_seq_sum_le_total(alloc, next, m as int);
                                assert(avail[m as int] + held_total(alloc, m as int) <= usize::MAX);
                            }
                            let add = self.inner.allocation[thread_id][m];
                            work.set(m, work[m] + add);
                            m = m + 1;
                        }
                        finishes.set(thread_id, true);
                        proof {
                            assert forall|j: int| 0 <= j < order.len() implies #[trigger] next.take(j)
                                =~= order.take(j) by {}
                            assert(next.take(order.len() as int) =~= order);
                            assert forall|j: int| 0 <= j < next.len() implies satisfiable(
                                avail,
                                alloc,
                                need,
                                next.take(j),
                                #[trigger] next[j],
                            ) by {
                                if j < order.len() {
                                    assert(next.take(j) =~= order.take(j));
                                    assert(next[j] == order[j]);
                                } else {
                                    assert(next[j] == ti);
                                }
                            }
                            assert forall|i: int| 0 <= i < MAX_THREAD implies #[trigger] finishes@[i]
                                == next.contains(i) by {
                                if i == ti {
                                    assert(next[next.len() - 1] == ti);
                                } else {
                                    if order.contains(i) {
                                        let j = choose|j: int| 0 <= j < order.len() && order[j] == i;
                                        assert(next[j] == i);
                                    }
                                    if next.contains(i) {
                                        let j = choose|j: int| 0 <= j < next.len() && next[j] == i;
                                        assert(order[j] == i);
                                    }
                                }
                            }
                            order = next;
                        }
                        run = true;
                    }
                }
                thread_id = thread_id + 1;
            }
        }
        let mut all_finished = true;
        let mut i: usize = 0;
        while i < MAX_THREAD && all_finished
            invariant
                finishes@.len() == MAX_THREAD,
                i <= MAX_THREAD,
                all_finished ==> forall|k: int| 0 <= k < i ==> #[trigger] finishes@[k],
                !all_finished ==> exists|k: int| 0 <= k < MAX_THREAD && !#[trigger] finishes@[k],
            decreases MAX_THREAD - i + if all_finished {
                1int
            } else {
                0
            },
        {
            if !finishes[i] {
                all_finished = false;
            } else {
                i = i + 1;
            }
        }
        if !all_finished {
            proof {
                let u = choose|k: int| 0 <= k < MAX_THREAD && !#[trigger] finishes@[k];
                assert forall|k: int|
                    0 <= k < MAX_THREAD && !order.contains(k) implies !#[trigger] satisfiable(
                    avail,
                    alloc,
                    need,
                    order,
                    k,
                ) by {
                    assert(finishes@[k] == order.contains(k));
                }
                lemma_stuck_is_unsafe(avail, alloc, need, order, u);
            }
            return DEADLOCK_SIGNAL;
        }
        proof {
            assert forall|k: int| 0 <= k < MAX_THREAD implies #[trigger] order.contains(k) by {
                assert(finishes@[k]);
            }
            lemma_full_order_is_safe(avail, alloc, need, order);
        }
        if self.inner.available[id] < 1 {
            return WAIT_SIGNAL;
        }
        self.inner.add_allocation(tid, id);
        self.inner.sub_need(tid, id);
        0
    }
}

/// A request that the detector granted, followed by the release of that
/// unit, leaves the detector as it was: free units, holdings, outstanding
/// requests and lock identifiers.
pub proof fn lemma_release_undoes_grant(
    d0: DeadlockDetector,
    d1: DeadlockDetector,
    d2: DeadlockDetector,
    tid: usize,
    id: usize,
)
    requires
        d0.wf(),
        tid < MAX_THREAD,
        id < MAX_LOCK,
        d0.need_view()[tid as int][id as int] < usize::MAX,
        request_answer(d0, tid, id, false) == 0,
        request_applied(d0, d1, tid, id, false),
        released(d1, d2, tid, id),
    ensures
        d2.available_view() == d0.available_view(),
        d2.allocation_view() == d0.allocation_view(),
        d2.need_view() == d0.need_view(),
        d2.id_state() == d0.id_state(),
{
    let avail = d0.available_view();
    let alloc = d0.allocation_view();
    let need = d0.need_view();
    let t = tid as int;
    let r = id as int;
    lemma_entry_le_total(alloc, t, r);
    assert(avail[r] >= 1);
    assert(alloc[t][r] + 1 <= usize::MAX);
    assert(d2.available_view() =~= avail);
    assert(d2.allocation_view()[t] =~= alloc[t]);
    assert(d2.allocation_view() =~= alloc);
    let need1 = requested_need(need, t, r, false);
    assert(d2.need_view()[t] =~= need[t]);
    assert(d2.need_view() =~= need);
}

} // verus!
