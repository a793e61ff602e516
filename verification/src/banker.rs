//! Deadlock detection by the banker's algorithm.
//!
//! A state is described by the vector of available units of each resource and,
//! for each thread, how many units of each resource it still needs and how many
//! it holds. The state is safe when the threads can be run to completion one
//! after another, each finishing once what is available covers its need and
//! then giving back what it holds.
use vstd::prelude::*;
use vstd::set_lib::*;

verus! {

/// Per-thread bookkeeping that the deadlock detector reads: the outstanding
/// need and the current allocation of each mutex and each semaphore.
pub struct ResourceUsage {
    pub m_need: Vec<usize>,
    pub m_allocation: Vec<usize>,
    pub s_need: Vec<usize>,
    pub s_allocation: Vec<usize>,
}

/// The contents of a [`ResourceUsage`].
#[verifier::ext_equal]
pub struct UsageView {
    pub m_need: Seq<usize>,
    pub m_allocation: Seq<usize>,
    pub s_need: Seq<usize>,
    pub s_allocation: Seq<usize>,
}

impl View for ResourceUsage {
    type V = UsageView;

    open spec fn view(&self) -> UsageView {
        UsageView {
            m_need: self.m_need@,
            m_allocation: self.m_allocation@,
            s_need: self.s_need@,
            s_allocation: self.s_allocation@,
        }
    }
}

impl ResourceUsage {
    /// A thread that neither needs nor holds anything.
    pub fn new() -> (r: Self)
        ensures
            r@ == (UsageView {
                m_need: Seq::empty(),
                m_allocation: Seq::empty(),
                s_need: Seq::empty(),
                s_allocation: Seq::empty(),
            }),
    {
        ResourceUsage {
            m_need: Vec::new(),
            m_allocation: Vec::new(),
            s_need: Vec::new(),
            s_allocation: Vec::new(),
        }
    }

    /// A copy with the same contents.
    pub fn duplicate(&self) -> (r: Self)
        ensures
            r@ == self@,
    {
        let r = ResourceUsage {
            m_need: self.m_need.clone(),
            m_allocation: self.m_allocation.clone(),
            s_need: self.s_need.clone(),
            s_allocation: self.s_allocation.clone(),
        };
        assert(r.m_need@ =~= self.m_need@);
        assert(r.m_allocation@ =~= self.m_allocation@);
        assert(r.s_need@ =~= self.s_need@);
        assert(r.s_allocation@ =~= self.s_allocation@);
        r
    }
}

/// The need vector that the detector reads for a thread.
pub open spec fn need_of(t: UsageView, use_mutex: bool) -> Seq<usize> {
    if use_mutex {
        t.m_need
    } else {
        t.s_need
    }
}

/// The allocation vector that the detector reads for a thread.
pub open spec fn allocation_of(t: UsageView, use_mutex: bool) -> Seq<usize> {
    if use_mutex {
        t.m_allocation
    } else {
        t.s_allocation
    }
}

pub open spec fn needs_of(ts: Seq<UsageView>, use_mutex: bool) -> Seq<Seq<usize>> {
    ts.map_values(|t: UsageView| need_of(t, use_mutex))
}

pub open spec fn allocations_of(ts: Seq<UsageView>, use_mutex: bool) -> Seq<Seq<usize>> {
    ts.map_values(|t: UsageView| allocation_of(t, use_mutex))
}

/// The contents of each thread's bookkeeping.
pub open spec fn usage_views(ts: Seq<ResourceUsage>) -> Seq<UsageView> {
    ts.map_values(|t: ResourceUsage| t@)
}

/// Entry `j` of a vector, where a vector shorter than `j + 1` counts as zero there.
pub open spec fn entry(v: Seq<usize>, j: int) -> int {
    if 0 <= j < v.len() {
        v[j] as int
    } else {
        0
    }
}

/// Units of resource `j` given back by the threads of `order`, once each.
pub open spec fn released(allocs: Seq<Seq<usize>>, order: Seq<int>, j: int) -> int
    decreases order.len(),
{
    if order.len() == 0 {
        0
    } else {
        released(allocs, order.drop_last(), j) + entry(allocs[order.last()], j)
    }
}

/// What is available once the threads of `order` have finished.
pub open spec fn work_after(avail: Seq<usize>, allocs: Seq<Seq<usize>>, order: Seq<int>) -> Seq<
    int,
> {
    Seq::new(avail.len(), |j: int| avail[j] + released(allocs, order, j))
}

/// A thread with this need and allocation can finish when `work` is available:
/// both vectors are no longer than `work`, and the need is covered entry by entry.
pub open spec fn can_finish(need: Seq<usize>, alloc: Seq<usize>, work: Seq<int>) -> bool {
    &&& need.len() <= work.len()
    &&& alloc.len() <= work.len()
    &&& forall|j: int| 0 <= j < need.len() ==> need[j] <= #[trigger] work[j]
}

/// `order` lists each of the indices `0..m` exactly once.
pub open spec fn is_permutation(order: Seq<int>, m: nat) -> bool {
    &&& order.no_duplicates()
    &&& forall|k: int| 0 <= k < order.len() ==> 0 <= #[trigger] order[k] < m
    &&& forall|i: int| 0 <= i < m ==> #[trigger] order.contains(i)
}

/// `order` is a safe sequence: every thread, in this order, can finish with
/// what is available plus what the threads before it gave back.
pub open spec fn is_safe_sequence(
    avail: Seq<usize>,
    needs: Seq<Seq<usize>>,
    allocs: Seq<Seq<usize>>,
    order: Seq<int>,
) -> bool {
    &&& is_permutation(order, needs.len())
    &&& forall|k: int|
        0 <= k < order.len() ==> #[trigger] can_finish(
            needs[order[k]],
            allocs[order[k]],
            work_after(avail, allocs, order.take(k)),
        )
}

/// The state is safe: some safe sequence exists.
pub open spec fn safe_state(avail: Seq<usize>, needs: Seq<Seq<usize>>, allocs: Seq<Seq<usize>>) -> bool {
    exists|order: Seq<int>| is_safe_sequence(avail, needs, allocs, order)
}

/// The indices `0..m` in order.
pub open spec fn all_indices(m: nat) -> Seq<int> {
    Seq::new(m, |i: int| i)
}

/// `chain` lists distinct threads that can finish one after another, each
/// with what is available plus what the threads before it gave back.
pub open spec fn is_finish_chain(
    avail: Seq<usize>,
    needs: Seq<Seq<usize>>,
    allocs: Seq<Seq<usize>>,
    chain: Seq<int>,
) -> bool {
    &&& chain.no_duplicates()
    &&& forall|k: int| 0 <= k < chain.len() ==> 0 <= #[trigger] chain[k] < needs.len()
    &&& forall|k: int|
        0 <= k < chain.len() ==> #[trigger] can_finish(
            needs[chain[k]],
            allocs[chain[k]],
            work_after(avail, allocs, chain.take(k)),
        )
}

/// Every sum that the detector can form fits in a machine word: for every
/// chain of threads that can finish one after another, and every resource,
/// what is available plus what the chain gives back.
pub open spec fn chains_fit(avail: Seq<usize>, needs: Seq<Seq<usize>>, allocs: Seq<Seq<usize>>) -> bool {
    forall|chain: Seq<int>|
        #[trigger] is_finish_chain(avail, needs, allocs, chain) ==> forall|j: int|
            0 <= j < avail.len() ==> avail[j] + #[trigger] released(allocs, chain, j) <= usize::MAX
}

proof fn lemma_released_nonneg(allocs: Seq<Seq<usize>>, order: Seq<int>, j: int)
    ensures
        released(allocs, order, j) >= 0,
    decreases order.len(),
{
    if order.len() > 0 {
        lemma_released_nonneg(allocs, order.drop_last(), j);
    }
}

/// Taking one thread out of `order` takes its allocation out of the sum.
proof fn lemma_released_remove(allocs: Seq<Seq<usize>>, order: Seq<int>, p: int, j: int)
    requires
        0 <= p < order.len(),
    ensures
        released(allocs, order, j) == released(allocs, order.remove(p), j) + entry(
            allocs[order[p]],
            j,
        ),
    decreases order.len(),
{
    if p == order.len() - 1 {
        assert(order.remove(p) =~= order.drop_last());
    } else {
        let rest = order.drop_last();
        lemma_released_remove(allocs, rest, p, j);
        assert(order.remove(p).drop_last() =~= rest.remove(p));
        assert(order.remove(p).last() == order.last());
    }
}

/// What a set of threads gives back is at most what a larger set gives back.
proof fn lemma_released_subset(allocs: Seq<Seq<usize>>, small: Seq<int>, big: Seq<int>, j: int)
    requires
        small.no_duplicates(),
        big.no_duplicates(),
        forall|k: int| 0 <= k < small.len() ==> big.contains(#[trigger] small[k]),
    ensures
        released(allocs, small, j) <= released(allocs, big, j),
    decreases small.len(),
{
    if small.len() == 0 {
        lemma_released_nonneg(allocs, big, j);
    } else {
        let x = small.last();
        let rest = small.drop_last();
        assert(big.contains(small[small.len() - 1]));
        let p = big.index_of(x);
        let big2 = big.remove(p);
        assert forall|k: int| 0 <= k < rest.len() implies big2.contains(#[trigger] rest[k]) by {
            assert(small[k] == rest[k]);
            assert(big.contains(small[k]));
            let q = big.index_of(rest[k]);
            assert(rest[k] != x);
            assert(q != p);
            if q < p {
                assert(big2[q] == rest[k]);
            } else {
                assert(big2[q - 1] == rest[k]);
            }
        }
        assert(big2.no_duplicates()) by {
            assert forall|a: int, b: int| 0 <= a < big2.len() && 0 <= b < big2.len() && a != b
                implies big2[a] != big2[b] by {
                let a2 = if a < p { a } else { a + 1 };
                let b2 = if b < p { b } else { b + 1 };
                assert(big2[a] == big[a2]);
                assert(big2[b] == big[b2]);
            }
        }
        lemma_released_subset(allocs, rest, big2, j);
        lemma_released_remove(allocs, big, p, j);
    }
}

/// A sequence without repeats drawn from `0..m` has at most `m` elements.
proof fn lemma_distinct_indices_len(order: Seq<int>, m: nat)
    requires
        order.no_duplicates(),
        forall|k: int| 0 <= k < order.len() ==> 0 <= #[trigger] order[k] < m,
    ensures
        order.len() <= m,
{
    order.unique_seq_to_set();
    lemma_int_range(0, m as int);
    assert(order.to_set().subset_of(set_int_range(0, m as int)));
    lemma_len_subset(order.to_set(), set_int_range(0, m as int));
}

/// Every thread of a finish chain is in the greedy closure `done`, from
/// which no further thread can finish: the first one missing would be able
/// to finish with what `done` gives back.
proof fn lemma_chain_within_closure(
    avail: Seq<usize>,
    needs: Seq<Seq<usize>>,
    allocs: Seq<Seq<usize>>,
    done: Seq<int>,
    chain: Seq<int>,
)
    requires
        needs.len() == allocs.len(),
        done.no_duplicates(),
        is_finish_chain(avail, needs, allocs, chain),
        forall|t: int|
            0 <= t < needs.len() && !done.contains(t) ==> !can_finish(
                #[trigger] needs[t],
                allocs[t],
                work_after(avail, allocs, done),
            ),
    ensures
        forall|q: int| 0 <= q < chain.len() ==> done.contains(#[trigger] chain[q]),
{
    if exists|q: int| 0 <= q < chain.len() && !done.contains(#[trigger] chain[q]) {
        let pos = choose|q: int| 0 <= q < chain.len() && !done.contains(#[trigger] chain[q]);
        let k = choose_first_missing(done, chain, pos);
        let prefix = chain.take(k);
        assert forall|q: int| 0 <= q < prefix.len() implies done.contains(#[trigger] prefix[q]) by {
            assert(prefix[q] == chain[q]);
        }
        assert(prefix.no_duplicates()) by {
            assert forall|a: int, b: int| 0 <= a < prefix.len() && 0 <= b < prefix.len() && a != b
                implies prefix[a] != prefix[b] by {
                assert(prefix[a] == chain[a]);
                assert(prefix[b] == chain[b]);
            }
        }
        let t = chain[k];
        assert(can_finish(needs[t], allocs[t], work_after(avail, allocs, chain.take(k))));
        let w1 = work_after(avail, allocs, prefix);
        let w2 = work_after(avail, allocs, done);
        assert forall|j: int| 0 <= j < needs[t].len() implies needs[t][j] <= #[trigger] w2[j] by {
            lemma_released_subset(allocs, prefix, done, j);
            assert(needs[t][j] <= w1[j]);
        }
        assert(can_finish(needs[t], allocs[t], w2));
        assert(0 <= t < needs.len());
    }
}

/// The least position `k <= pos` of `order` whose thread `done` misses.
proof fn choose_first_missing(done: Seq<int>, order: Seq<int>, pos: int) -> (k: int)
    requires
        0 <= pos < order.len(),
        !done.contains(order[pos]),
    ensures
        0 <= k <= pos,
        !done.contains(order[k]),
        forall|q: int| 0 <= q < k ==> done.contains(#[trigger] order[q]),
    decreases pos,
{
    if pos == 0 {
        0
    } else if exists|q: int| 0 <= q < pos && !done.contains(#[trigger] order[q]) {
        let q = choose|q: int| 0 <= q < pos && !done.contains(#[trigger] order[q]);
        choose_first_missing(done, order, q)
    } else {
        pos
    }
}

/// More available units never make a safe state unsafe: a safe sequence for
/// `avail` is still one when each resource has at least as much available.
pub proof fn lemma_safe_state_monotone(
    avail: Seq<usize>,
    more: Seq<usize>,
    needs: Seq<Seq<usize>>,
    allocs: Seq<Seq<usize>>,
)
    requires
        avail.len() == more.len(),
        forall|j: int| 0 <= j < avail.len() ==> avail[j] <= #[trigger] more[j],
        safe_state(avail, needs, allocs),
    ensures
        safe_state(more, needs, allocs),
{
    let order = choose|order: Seq<int>| is_safe_sequence(avail, needs, allocs, order);
    assert forall|k: int| 0 <= k < order.len() implies #[trigger] can_finish(
        needs[order[k]],
        allocs[order[k]],
        work_after(more, allocs, order.take(k)),
    ) by {
        let w1 = work_after(avail, allocs, order.take(k));
        let w2 = work_after(more, allocs, order.take(k));
        assert(can_finish(needs[order[k]], allocs[order[k]], w1));
        assert forall|j: int| 0 <= j < needs[order[k]].len() implies needs[order[k]][j]
            <= #[trigger] w2[j] by {
            assert(needs[order[k]][j] <= w1[j]);
        }
    }
    assert(is_safe_sequence(more, needs, allocs, order));
}

/// Decides whether the state is safe, by the banker's algorithm: keep
/// finishing any thread whose need is covered by what is available, giving
/// back what it holds, until no thread can finish; the state is safe when all
/// have finished.
pub fn is_safe_state(available: &[usize], tasks: &[ResourceUsage], use_mutex: bool) -> (safe: bool)
    requires
        chains_fit(
            available@,
            needs_of(usage_views(tasks@), use_mutex),
            allocations_of(usage_views(tasks@), use_mutex),
        ),
    ensures
        safe == safe_state(
            available@,
            needs_of(usage_views(tasks@), use_mutex),
            allocations_of(usage_views(tasks@), use_mutex),
        ),
{
    match run_banker(available, tasks, use_mutex) {
        Some(safe) => safe,
        None => false,
    }
}

/// Whether every sum that deciding the state forms fits in a word, see
/// [`chains_fit`]. A caller that gets `false` must not ask the detector.
pub fn detector_sums_fit(available: &[usize], tasks: &[ResourceUsage], use_mutex: bool) -> (ok: bool)
    ensures
        ok == chains_fit(
            available@,
            needs_of(usage_views(tasks@), use_mutex),
            allocations_of(usage_views(tasks@), use_mutex),
        ),
{
    run_banker(available, tasks, use_mutex).is_some()
}

/// The banker's algorithm, adding with a check: `None` when a sum would not
/// fit in a word, else whether all threads could finish.
fn run_banker(available: &[usize], tasks: &[ResourceUsage], use_mutex: bool) -> (r: Option<bool>)
    ensures
        r is None <==> !chains_fit(
            available@,
            needs_of(usage_views(tasks@), use_mutex),
            allocations_of(usage_views(tasks@), use_mutex),
        ),
        r matches Some(safe) ==> safe == safe_state(
            available@,
            needs_of(usage_views(tasks@), use_mutex),
            allocations_of(usage_views(tasks@), use_mutex),
        ),
{
    let ghost avail = available@;
    let ghost needs = needs_of(usage_views(tasks@), use_mutex);
    let ghost allocs = allocations_of(usage_views(tasks@), use_mutex);
    let m = tasks.len();
    let n = available.len();
    let mut work = vstd::slice::slice_to_vec(available);
    let mut finish: Vec<bool> = Vec::new();
    for k in 0..m
        invariant
            finish.len() == k,
            forall|q: int| 0 <= q < k ==> !finish[q],
    {
        finish.push(false);
    }
    let ghost mut done: Seq<int> = Seq::empty();
    assert forall|j: int| 0 <= j < n implies work[j] == avail[j] + released(allocs, done, j) by {}
    let mut progress = true;
    while progress
        invariant
            m == tasks.len(),
            n == available.len(),
            avail == available@,
            needs == needs_of(usage_views(tasks@), use_mutex),
            allocs == allocations_of(usage_views(tasks@), use_mutex),
            work.len() == n,
            finish.len() == m,
            done.no_duplicates(),
            forall|k: int| 0 <= k < done.len() ==> 0 <= #[trigger] done[k] < m,
            forall|i: int| 0 <= i < m ==> (finish[i] <==> done.contains(i)),
            forall|j: int| 0 <= j < n ==> #[trigger] work[j] == avail[j] + released(allocs, done, j),
            forall|k: int|
                0 <= k < done.len() ==> #[trigger] can_finish(
                    needs[done[k]],
                    allocs[done[k]],
                    work_after(avail, allocs, done.take(k)),
                ),
            !progress ==> forall|t: int|
                0 <= t < m && !done.contains(t) ==> !can_finish(
                    #[trigger] needs[t],
                    allocs[t],
                    work_after(avail, allocs, done),
                ),
        decreases 2 * (m - done.len()) + (if progress { 1int } else { 0int }),
    {
        proof {
            lemma_distinct_indices_len(done, m as nat);
        }
        progress = false;
        let ghost start = done;
        let mut i: usize = 0;
        while i < m
            invariant
                m == tasks.len(),
                n == available.len(),
                avail == available@,
                needs == needs_of(usage_views(tasks@), use_mutex),
                allocs == allocations_of(usage_views(tasks@), use_mutex),
                    0 <= i <= m,
                work.len() == n,
                finish.len() == m,
                done.no_duplicates(),
                forall|k: int| 0 <= k < done.len() ==> 0 <= #[trigger] done[k] < m,
                forall|i: int| 0 <= i < m ==> (finish[i] <==> done.contains(i)),
                forall|j: int|
                    0 <= j < n ==> #[trigger] work[j] == avail[j] + released(allocs, done, j),
                forall|k: int|
                    0 <= k < done.len() ==> #[trigger] can_finish(
                        needs[done[k]],
                        allocs[done[k]],
                        work_after(avail, allocs, done.take(k)),
                    ),
                start.len() <= done.len(),
                progress ==> start.len() < done.len(),
                !progress ==> done == start,
                !progress ==> forall|t: int|
                    0 <= t < i && !done.contains(t) ==> !can_finish(
                        #[trigger] needs[t],
                        allocs[t],
                        work_after(avail, allocs, done),
                    ),
            decreases m - i,
        {
            if !finish[i] {
                let need: &Vec<usize> = if use_mutex {
                    &tasks[i].m_need
                } else {
                    &tasks[i].s_need
                };
                let allocation: &Vec<usize> = if use_mutex {
                    &tasks[i].m_allocation
                } else {
                    &tasks[i].s_allocation
                };
                assert(need@ == needs[i as int]);
                assert(allocation@ == allocs[i as int]);
                let ghost w = work_after(avail, allocs, done);
                if !(need.len() > work.len() || allocation.len() > work.len()) {
                    let mut covered = true;
                    let mut j: usize = 0;
                    while j < need.len()
                        invariant
                            0 <= j <= need.len(),
                            need.len() <= work.len(),
                            work.len() == n,
                            w.len() == n,
                            forall|q: int| 0 <= q < n ==> #[trigger] w[q] == work[q],
                            covered <==> forall|q: int| 0 <= q < j ==> need[q] <= #[trigger] w[q],
                        decreases need.len() - j,
                    {
                        assert(w[j as int] == work[j as int]);
                        if need[j] > work[j] {
                            covered = false;
                        }
                        j += 1;
                    }
                    assert(covered <==> can_finish(need@, allocation@, w));
                    if covered {
                        let ghost new_done = done.push(i as int);
                        assert(new_done.no_duplicates()) by {
                            assert forall|a: int, b: int|
                                0 <= a < new_done.len() && 0 <= b < new_done.len() && a != b
                                implies new_done[a] != new_done[b] by {
                                if a == done.len() {
                                    assert(!done.contains(i as int));
                                    assert(done[b] == new_done[b]);
                                } else if b == done.len() {
                                    assert(!done.contains(i as int));
                                    assert(done[a] == new_done[a]);
                                }
                            }
                        }
                        proof {
                            assert forall|k: int| 0 <= k < new_done.len() implies #[trigger] can_finish(
                                needs[new_done[k]],
                                allocs[new_done[k]],
                                work_after(avail, allocs, new_done.take(k)),
                            ) by {
                                if k < done.len() {
                                    assert(new_done.take(k) =~= done.take(k));
                                    assert(new_done[k] == done[k]);
                                } else {
                                    assert(new_done.take(k) =~= done);
                                }
                            }
                            assert(is_finish_chain(avail, needs, allocs, new_done));
                        }
                        let mut j: usize = 0;
                        while j < allocation.len()
                            invariant
                                0 <= j <= allocation.len(),
                                is_finish_chain(avail, needs, allocs, new_done),
                                needs.len() == m,
                                avail == available@,
                                needs == needs_of(usage_views(tasks@), use_mutex),
                                allocs == allocations_of(usage_views(tasks@), use_mutex),
                                allocation.len() <= n,
                                work.len() == n,
                                allocation@ == allocs[i as int],
                                                    avail.len() == n,
                                new_done.no_duplicates(),
                                forall|k: int|
                                    0 <= k < new_done.len() ==> 0 <= #[trigger] new_done[k] < m,
                                allocs.len() == m,
                                new_done == done.push(i as int),
                                forall|q: int|
                                    0 <= q < j ==> #[trigger] work[q] == avail[q] + released(
                                        allocs,
                                        new_done,
                                        q,
                                    ),
                                forall|q: int|
                                    j <= q < n ==> #[trigger] work[q] == avail[q] + released(
                                        allocs,
                                        done,
                                        q,
                                    ),
                            decreases allocation.len() - j,
                        {
                            proof {
                                assert(new_done.drop_last() =~= done);
                                assert(released(allocs, new_done, j as int) == released(
                                    allocs,
                                    done,
                                    j as int,
                                ) + allocation[j as int]);
                            }
                            if work[j] > usize::MAX - allocation[j] {
                                proof {
                                    assert(avail[j as int] + released(allocs, new_done, j as int) > usize::MAX);
                                    assert(!chains_fit(avail, needs, allocs));
                                }
                                return None;
                            }
                            let sum = work[j] + allocation[j];
                            work.set(j, sum);
                            j += 1;
                        }
                        proof {
                            assert forall|q: int| allocation.len() <= q < n implies #[trigger] work[q]
                                == avail[q] + released(allocs, new_done, q) by {
                                assert(new_done.drop_last() =~= done);
                            }
                        }
                        finish.set(i, true);
                        progress = true;
                        proof {
                            assert forall|x: int| #[trigger] new_done.contains(x) <==> (done.contains(x) || x == i) by {
                                if done.contains(x) {
                                    let q = done.index_of(x);
                                    assert(new_done[q] == x);
                                }
                                if x == i {
                                    assert(new_done[done.len() as int] == x);
                                }
                                if new_done.contains(x) {
                                    let q = new_done.index_of(x);
                                    if q < done.len() {
                                        assert(done[q] == x);
                                    }
                                }
                            }
                            done = new_done;
                        }
                    }
                }
            }
            i += 1;
        }
        proof {
            lemma_distinct_indices_len(done, m as nat);
        }
    }
    let mut all_finished = true;
    let mut i: usize = 0;
    while i < m
        invariant
            0 <= i <= m,
            finish.len() == m,
            all_finished <==> forall|q: int| 0 <= q < i ==> finish[q],
        decreases m - i,
    {
        if !finish[i] {
            all_finished = false;
        }
        i += 1;
    }
    proof {
        assert forall|chain: Seq<int>| #[trigger] is_finish_chain(avail, needs, allocs, chain) implies forall|j: int|
            0 <= j < avail.len() ==> avail[j] + #[trigger] released(allocs, chain, j) <= usize::MAX by {
            lemma_chain_within_closure(avail, needs, allocs, done, chain);
            assert forall|j: int| 0 <= j < avail.len() implies avail[j] + #[trigger] released(allocs, chain, j)
                <= usize::MAX by {
                lemma_released_subset(allocs, chain, done, j);
                assert(work[j] == avail[j] + released(allocs, done, j));
            }
        }
        if all_finished {
            assert forall|t: int| 0 <= t < m implies done.contains(t) by {
                assert(finish[t]);
            }
            assert forall|k: int| 0 <= k < done.len() implies #[trigger] can_finish(
                needs[done[k]],
                allocs[done[k]],
                work_after(avail, allocs, done.take(k)),
            ) by {}
            assert(is_safe_sequence(avail, needs, allocs, done));
        } else {
            let t = choose|t: int| 0 <= t < m && !finish[t];
            if exists|order: Seq<int>| is_safe_sequence(avail, needs, allocs, order) {
                let order = choose|order: Seq<int>| is_safe_sequence(avail, needs, allocs, order);
                lemma_chain_within_closure(avail, needs, allocs, done, order);
                assert(order.contains(t));
                let q = order.index_of(t);
                assert(done.contains(order[q]));
            }
        }
    }
    Some(all_finished)
}

/// All thread indices but `p`.
pub open spec fn others(m: nat, p: int) -> Seq<int> {
    all_indices(m).remove(p)
}

proof fn lemma_others(m: nat, p: int)
    requires
        0 <= p < m,
    ensures
        others(m, p).len() == m - 1,
        others(m, p).no_duplicates(),
        forall|k: int| 0 <= k < others(m, p).len() ==> #[trigger] others(m, p)[k] == (if k < p { k } else { k + 1 }),
        forall|i: int| 0 <= i < m && i != p ==> #[trigger] others(m, p).contains(i),
        !others(m, p).contains(p),
{
    let o = others(m, p);
    assert forall|k: int| 0 <= k < o.len() implies #[trigger] o[k] == (if k < p { k } else { k + 1 }) by {}
    assert forall|i: int| 0 <= i < m && i != p implies #[trigger] o.contains(i) by {
        if i < p {
            assert(o[i] == i);
        } else {
            assert(o[i - 1] == i);
        }
    }
}

/// A single request among threads that need nothing: thread `p` asks for one
/// unit of resource `id` and every other need entry is zero. Such a state is
/// safe exactly when one unit of `id` is available or held by another thread.
pub proof fn lemma_single_request_safe(avail: Seq<usize>, needs: Seq<Seq<usize>>, allocs: Seq<Seq<usize>>, p: int, id: int)
    requires
        needs.len() == allocs.len(),
        0 <= p < needs.len(),
        0 <= id < needs[p].len(),
        needs[p][id] == 1,
        forall|t: int, j: int|
            0 <= t < needs.len() && 0 <= j < needs[t].len() && !(t == p && j == id) ==> #[trigger] needs[t][j] == 0,
        forall|t: int| 0 <= t < needs.len() ==> (#[trigger] needs[t]).len() <= avail.len() && allocs[t].len() <= avail.len(),
    ensures
        safe_state(avail, needs, allocs) <==> avail[id] + released(allocs, others(needs.len(), p), id) >= 1,
{
    let m = needs.len();
    let o = others(m, p);
    lemma_others(m, p);
    if avail[id] + released(allocs, o, id) >= 1 {
        let order = o.push(p);
        assert(order.no_duplicates()) by {
            assert forall|a: int, b: int| 0 <= a < order.len() && 0 <= b < order.len() && a != b
                implies order[a] != order[b] by {
                if a == m - 1 {
                    assert(order[b] == o[b]);
                } else if b == m - 1 {
                    assert(order[a] == o[a]);
                } else {
                    assert(order[a] == o[a]);
                    assert(order[b] == o[b]);
                }
            }
        }
        assert forall|i: int| 0 <= i < m implies #[trigger] order.contains(i) by {
            if i == p {
                assert(order[m - 1] == p);
            } else {
                let q = if i < p { i } else { i - 1 };
                assert(o[q] == i);
                assert(order[q] == o[q]);
            }
        }
        assert forall|k: int| 0 <= k < order.len() implies #[trigger] can_finish(
            needs[order[k]],
            allocs[order[k]],
            work_after(avail, allocs, order.take(k)),
        ) by {
            let w = work_after(avail, allocs, order.take(k));
            let t = order[k];
            if k < m - 1 {
                assert(t == o[k]);
                assert forall|j: int| 0 <= j < needs[t].len() implies needs[t][j] <= #[trigger] w[j] by {
                    lemma_released_nonneg(allocs, order.take(k), j);
                }
            } else {
                assert(order.take(k) =~= o);
                assert forall|j: int| 0 <= j < needs[t].len() implies needs[t][j] <= #[trigger] w[j] by {
                    lemma_released_nonneg(allocs, order.take(k), j);
                }
            }
        }
        assert(is_safe_sequence(avail, needs, allocs, order));
    } else {
        if safe_state(avail, needs, allocs) {
            let order = choose|order: Seq<int>| is_safe_sequence(avail, needs, allocs, order);
            assert(order.contains(p));
            let k = order.index_of(p);
            let prefix = order.take(k);
            assert(can_finish(needs[p], allocs[p], work_after(avail, allocs, prefix)));
            assert(prefix.no_duplicates()) by {
                assert forall|a: int, b: int| 0 <= a < prefix.len() && 0 <= b < prefix.len() && a != b
                    implies prefix[a] != prefix[b] by {
                    assert(prefix[a] == order[a]);
                    assert(prefix[b] == order[b]);
                }
            }
            assert forall|q: int| 0 <= q < prefix.len() implies o.contains(#[trigger] prefix[q]) by {
                assert(prefix[q] == order[q]);
                assert(order[q] != p);
            }
            lemma_released_subset(allocs, prefix, o, id);
            assert(work_after(avail, allocs, prefix)[id] == avail[id] + released(allocs, prefix, id));
        }
    }
}

/// The answer depends on nothing but the selected vectors: threads that
/// agree on their needs and allocations of the chosen kind make the same
/// state safe or unsafe.
pub proof fn lemma_detector_reads_selected_vectors(
    avail: Seq<usize>,
    ts1: Seq<UsageView>,
    ts2: Seq<UsageView>,
    use_mutex: bool,
)
    requires
        needs_of(ts1, use_mutex) == needs_of(ts2, use_mutex),
        allocations_of(ts1, use_mutex) == allocations_of(ts2, use_mutex),
    ensures
        safe_state(avail, needs_of(ts1, use_mutex), allocations_of(ts1, use_mutex)) == safe_state(
            avail,
            needs_of(ts2, use_mutex),
            allocations_of(ts2, use_mutex),
        ),
{
}

/// Renaming the threads by `f` along a sequence of them changes nothing
/// that they give back, when each keeps its allocation.
proof fn lemma_released_rename(
    allocs: Seq<Seq<usize>>,
    allocs2: Seq<Seq<usize>>,
    s: Seq<int>,
    f: spec_fn(int) -> int,
    j: int,
)
    requires
        forall|q: int| 0 <= q < s.len() ==> allocs2[f(#[trigger] s[q])] == allocs[s[q]],
    ensures
        released(allocs2, s.map_values(f), j) == released(allocs, s, j),
    decreases s.len(),
{
    if s.len() > 0 {
        assert(s.map_values(f).drop_last() =~= s.drop_last().map_values(f));
        assert forall|q: int| 0 <= q < s.drop_last().len() implies allocs2[f(#[trigger] s.drop_last()[q])]
            == allocs[s.drop_last()[q]] by {
            assert(s.drop_last()[q] == s[q]);
        }
        lemma_released_rename(allocs, allocs2, s.drop_last(), f, j);
        assert(allocs2[f(s[s.len() - 1])] == allocs[s[s.len() - 1]]);
    }
}

/// A safe sequence stays safe when the threads are renamed by `f`, a map
/// that is one to one on `0..m` onto `0..m` and keeps every thread's vectors.
proof fn lemma_safe_sequence_rename(
    avail: Seq<usize>,
    needs: Seq<Seq<usize>>,
    allocs: Seq<Seq<usize>>,
    needs2: Seq<Seq<usize>>,
    allocs2: Seq<Seq<usize>>,
    order: Seq<int>,
    f: spec_fn(int) -> int,
    g: spec_fn(int) -> int,
)
    requires
        needs.len() == allocs.len(),
        needs2.len() == needs.len(),
        allocs2.len() == needs.len(),
        is_safe_sequence(avail, needs, allocs, order),
        forall|x: int| 0 <= x < needs.len() ==> 0 <= #[trigger] f(x) < needs.len(),
        forall|x: int| 0 <= x < needs.len() ==> 0 <= #[trigger] g(x) < needs.len(),
        forall|x: int| 0 <= x < needs.len() ==> #[trigger] g(f(x)) == x,
        forall|y: int| 0 <= y < needs.len() ==> #[trigger] f(g(y)) == y,
        forall|x: int| 0 <= x < needs.len() ==> needs2[#[trigger] f(x)] == needs[x] && allocs2[f(x)] == allocs[x],
    ensures
        is_safe_sequence(avail, needs2, allocs2, order.map_values(f)),
{
    let m = needs.len();
    let o2 = order.map_values(f);
    assert(o2.no_duplicates()) by {
        assert forall|a: int, b: int| 0 <= a < o2.len() && 0 <= b < o2.len() && a != b implies o2[a] != o2[b] by {
            assert(g(f(order[a])) == order[a]);
            assert(g(f(order[b])) == order[b]);
        }
    }
    assert forall|k: int| 0 <= k < o2.len() implies 0 <= #[trigger] o2[k] < m by {
        assert(0 <= order[k] < m);
    }
    assert forall|i: int| 0 <= i < m implies #[trigger] o2.contains(i) by {
        assert(order.contains(g(i)));
        let q = order.index_of(g(i));
        assert(o2[q] == f(g(i)));
    }
    assert forall|k: int| 0 <= k < o2.len() implies #[trigger] can_finish(
        needs2[o2[k]],
        allocs2[o2[k]],
        work_after(avail, allocs2, o2.take(k)),
    ) by {
        let pre = order.take(k);
        assert(o2.take(k) =~= pre.map_values(f));
        assert forall|q: int| 0 <= q < pre.len() implies allocs2[f(#[trigger] pre[q])] == allocs[pre[q]] by {
            assert(pre[q] == order[q]);
            assert(0 <= order[q] < m);
        }
        assert(can_finish(needs[order[k]], allocs[order[k]], work_after(avail, allocs, pre)));
        let w1 = work_after(avail, allocs, pre);
        let w2 = work_after(avail, allocs2, o2.take(k));
        assert forall|j: int| 0 <= j < avail.len() implies #[trigger] w2[j] == w1[j] by {
            lemma_released_rename(allocs, allocs2, pre, f, j);
        }
        assert(w2 =~= w1);
        assert(0 <= order[k] < m);
    }
}

/// The order in which the threads are listed does not change the answer:
/// listing thread `perm[i]` in place `i`, for a permutation `perm`, makes
/// the state safe exactly when the original listing is.
pub proof fn lemma_safe_state_permutation(
    avail: Seq<usize>,
    needs: Seq<Seq<usize>>,
    allocs: Seq<Seq<usize>>,
    perm: Seq<int>,
)
    requires
        needs.len() == allocs.len(),
        perm.len() == needs.len(),
        is_permutation(perm, needs.len()),
    ensures
        safe_state(avail, needs, allocs) == safe_state(
            avail,
            perm.map_values(|i: int| needs[i]),
            perm.map_values(|i: int| allocs[i]),
        ),
{
    let m = needs.len();
    let needs2 = perm.map_values(|i: int| needs[i]);
    let allocs2 = perm.map_values(|i: int| allocs[i]);
    let p = |y: int| perm[y];
    let q = |x: int| perm.index_of(x);
    assert forall|x: int| 0 <= x < m implies 0 <= #[trigger] q(x) < m && perm[q(x)] == x by {
        assert(perm.contains(x));
    }
    assert forall|y: int| 0 <= y < m implies #[trigger] q(p(y)) == y by {
        assert(perm.contains(perm[y]));
        let z = perm.index_of(perm[y]);
        assert(perm[z] == perm[y]);
    }
    if safe_state(avail, needs, allocs) {
        let order = choose|order: Seq<int>| is_safe_sequence(avail, needs, allocs, order);
        assert forall|x: int| 0 <= x < m implies needs2[#[trigger] q(x)] == needs[x] && allocs2[q(x)] == allocs[x] by {
            assert(perm[q(x)] == x);
        }
        lemma_safe_sequence_rename(avail, needs, allocs, needs2, allocs2, order, q, p);
        assert(is_safe_sequence(avail, needs2, allocs2, order.map_values(q)));
    }
    if safe_state(avail, needs2, allocs2) {
        let order = choose|order: Seq<int>| is_safe_sequence(avail, needs2, allocs2, order);
        assert forall|y: int| 0 <= y < m implies needs[#[trigger] p(y)] == needs2[y] && allocs[p(y)] == allocs2[y] by {}
        assert forall|y: int| 0 <= y < m implies 0 <= #[trigger] p(y) < m by {}
        lemma_safe_sequence_rename(avail, needs2, allocs2, needs, allocs, order, p, q);
        assert(is_safe_sequence(avail, needs, allocs, order.map_values(p)));
    }
}

} // verus!
