//! Resource-allocation safety check (banker's algorithm) that gates lock and
//! semaphore acquisitions when deadlock detection is enabled.
use vstd::prelude::*;

verus! {

/// The rows of a matrix as sequences.
pub open spec fn rows(m: Seq<Vec<u64>>) -> Seq<Seq<u64>> {
    m.map_values(|r: Vec<u64>| r@)
}

/// Units of resource `j` held by the threads below `n` that belong to `done`.
pub open spec fn released(alloc: Seq<Seq<u64>>, done: Set<int>, j: int, n: int) -> int
    decreases n,
{
    if n <= 0 {
        0
    } else {
        released(alloc, done, j, n - 1) + if done.contains(n - 1) {
            alloc[n - 1][j] as int
        } else {
            0
        }
    }
}

/// Units of resource `j` free once every thread of `done` has finished and
/// given back what it holds.
pub open spec fn free_after(avail: Seq<u64>, alloc: Seq<Seq<u64>>, done: Set<int>, j: int) -> int {
    avail[j] + released(alloc, done, j, alloc.len() as int)
}

/// A thread needing `row` can run to completion once the threads of `done` have.
pub open spec fn fits(row: Seq<u64>, avail: Seq<u64>, alloc: Seq<Seq<u64>>, done: Set<int>) -> bool {
    forall|j: int| 0 <= j < avail.len() ==> row[j] <= free_after(avail, alloc, done, j)
}

/// Every thread appears once in `ord`, and each one's need is covered by the
/// free units plus what the threads before it give back.
pub open spec fn safe_order(
    avail: Seq<u64>,
    alloc: Seq<Seq<u64>>,
    need: Seq<Seq<u64>>,
    ord: Seq<int>,
) -> bool {
    &&& ord.no_duplicates()
    &&& forall|k: int| 0 <= k < ord.len() ==> 0 <= #[trigger] ord[k] < need.len()
    &&& forall|i: int| 0 <= i < need.len() ==> ord.contains(i)
    &&& forall|k: int|
        0 <= k < ord.len() ==> fits(need[#[trigger] ord[k]], avail, alloc, ord.take(k).to_set())
}

/// A state is safe when some order lets every thread finish.
pub open spec fn is_safe(avail: Seq<u64>, alloc: Seq<Seq<u64>>, need: Seq<Seq<u64>>) -> bool {
    exists|ord: Seq<int>| safe_order(avail, alloc, need, ord)
}

/// One row per thread, one column per resource, in both matrices.
pub open spec fn well_shaped(avail: Seq<u64>, alloc: Seq<Seq<u64>>, need: Seq<Seq<u64>>) -> bool {
    &&& alloc.len() == need.len()
    &&& forall|i: int| 0 <= i < alloc.len() ==> #[trigger] alloc[i].len() == avail.len()
    &&& forall|i: int| 0 <= i < need.len() ==> #[trigger] need[i].len() == avail.len()
}

/// The count of every resource, free plus held, fits in a `u64`.
pub open spec fn totals_fit(avail: Seq<u64>, alloc: Seq<Seq<u64>>) -> bool {
    forall|j: int| 0 <= j < avail.len() ==> free_after(avail, alloc, Set::full(), j) <= u64::MAX
}

proof fn lemma_released_mono(alloc: Seq<Seq<u64>>, a: Set<int>, b: Set<int>, j: int, n: int)
    requires
        a.subset_of(b),
    ensures
        released(alloc, a, j, n) <= released(alloc, b, j, n),
    decreases n,
{
    if n > 0 {
        lemma_released_mono(alloc, a, b, j, n - 1);
    }
}

proof fn lemma_released_empty(alloc: Seq<Seq<u64>>, j: int, n: int)
    ensures
        released(alloc, Set::empty(), j, n) == 0,
    decreases n,
{
    if n > 0 {
        lemma_released_empty(alloc, j, n - 1);
    }
}

proof fn lemma_released_insert(alloc: Seq<Seq<u64>>, a: Set<int>, x: int, j: int, n: int)
    requires
        !a.contains(x),
        0 <= x,
    ensures
        released(alloc, a.insert(x), j, n) == released(alloc, a, j, n) + if x < n {
            alloc[x][j] as int
        } else {
            0
        },
    decreases n,
{
    if n > 0 {
        lemma_released_insert(alloc, a, x, j, n - 1);
    }
}

/// Number of `true` entries.
spec fn count_true(s: Seq<bool>) -> nat
    decreases s.len(),
{
    if s.len() == 0 {
        0
    } else {
        count_true(s.drop_last()) + if s.last() {
            1nat
        } else {
            0
        }
    }
}

proof fn lemma_count_true_bound(s: Seq<bool>)
    ensures
        count_true(s) <= s.len(),
        count_true(s) == s.len() <==> forall|i: int| 0 <= i < s.len() ==> s[i],
        (forall|i: int| 0 <= i < s.len() ==> !s[i]) ==> count_true(s) == 0,
    decreases s.len(),
{
    if s.len() > 0 {
        lemma_count_true_bound(s.drop_last());
        assert forall|i: int| 0 <= i < s.len() - 1 implies s.drop_last()[i] == s[i] by {}
        assert forall|i: int| 0 <= i < s.len() && count_true(s) == s.len() implies s[i] by {
            if i < s.len() - 1 {
                assert(s.drop_last()[i] == s[i]);
            }
        }
    }
}

proof fn lemma_count_true_set(s: Seq<bool>, i: int)
    requires
        0 <= i < s.len(),
        !s[i],
    ensures
        count_true(s.update(i, true)) == count_true(s) + 1,
    decreases s.len(),
{
    if i == s.len() - 1 {
        assert(s.update(i, true).drop_last() =~= s.drop_last());
    } else {
        lemma_count_true_set(s.drop_last(), i);
        assert(s.update(i, true).drop_last() =~= s.drop_last().update(i, true));
    }
}

/// Whether `row[j] <= work[j]` for every column.
fn row_fits(row: &Vec<u64>, work: &Vec<u64>) -> (r: bool)
    requires
        row@.len() == work@.len(),
    ensures
        r == forall|j: int| 0 <= j < work@.len() ==> row@[j] <= work@[j],
{
    let mut j: usize = 0;
    while j < work.len()
        invariant
            j <= work@.len(),
            row@.len() == work@.len(),
            forall|k: int| 0 <= k < j ==> row@[k] <= work@[k],
        decreases work@.len() - j,
    {
        if row[j] > work[j] {
            return false;
        }
        j = j + 1;
    }
    true
}

/// Decides whether the state given by the free units `available`, the units
/// each thread holds (`allocation`) and the units each thread still waits for
/// (`need`) is safe: whether some order lets every thread finish.
pub fn is_safe_state(available: &Vec<u64>, allocation: &Vec<Vec<u64>>, need: &Vec<Vec<u64>>) -> (r:
    bool)
    requires
        well_shaped(available@, rows(allocation@), rows(need@)),
        totals_fit(available@, rows(allocation@)),
    ensures
        r == is_safe(available@, rows(allocation@), rows(need@)),
{
    let ghost avail = available@;
    let ghost alloc = rows(allocation@);
    let ghost needs = rows(need@);
    let n = need.len();
    let m = available.len();
    let mut work: Vec<u64> = Vec::new();
    let mut j: usize = 0;
    while j < m
        invariant
            j <= m,
            m == available@.len(),
            work@ =~= available@.take(j as int),
        decreases m - j,
    {
        work.push(available[j]);
        j = j + 1;
    }
    let mut finish: Vec<bool> = Vec::new();
    let mut i: usize = 0;
    while i < n
        invariant
            i <= n,
            finish@.len() == i,
            forall|k: int| 0 <= k < i ==> !finish@[k],
        decreases n - i,
    {
        finish.push(false);
        i = i + 1;
    }
    let ghost mut ord: Seq<int> = Seq::empty();
    proof {
        assert forall|jj: int| 0 <= jj < m implies work@[jj] == free_after(avail, alloc, ord.to_set(), jj) by {
            assert(ord.to_set() =~= Set::empty());
            lemma_released_empty(alloc, jj, n as int);
        }
    }
    let mut done: usize = 0;
    proof {
        lemma_count_true_bound(finish@);
    }
    let mut progressed = true;
    while progressed
        invariant
            n == need@.len(),
            n == allocation@.len(),
            m == available@.len(),
            avail == available@,
            alloc == rows(allocation@),
            needs == rows(need@),
            well_shaped(avail, alloc, needs),
            totals_fit(avail, alloc),
            work@.len() == m,
            finish@.len() == n,
            done == ord.len(),
            done == count_true(finish@),
            forall|jj: int| 0 <= jj < m ==> work@[jj] == free_after(avail, alloc, ord.to_set(), jj),
            forall|k: int| 0 <= k < n ==> (finish@[k] <==> ord.contains(k)),
            ord.no_duplicates(),
            forall|k: int| 0 <= k < ord.len() ==> 0 <= #[trigger] ord[k] < n,
            forall|k: int|
                0 <= k < ord.len() ==> fits(needs[#[trigger] ord[k]], avail, alloc, ord.take(k).to_set()),
            !progressed ==> forall|k: int|
                0 <= k < n && !finish@[k] ==> !fits(needs[k], avail, alloc, ord.to_set()),
        decreases n - done, if progressed { 1int } else { 0int },
    {
        proof {
            lemma_count_true_bound(finish@);
        }
        progressed = false;
        let ghost done_at_start = done;
        let mut t: usize = 0;
        while t < n
            invariant
                n == need@.len(),
                n == allocation@.len(),
                m == available@.len(),
                avail == available@,
                alloc == rows(allocation@),
                needs == rows(need@),
                well_shaped(avail, alloc, needs),
                totals_fit(avail, alloc),
                t <= n,
                work@.len() == m,
                finish@.len() == n,
                done == ord.len(),
                done == count_true(finish@),
                done >= done_at_start,
                progressed ==> done > done_at_start,
                forall|jj: int| 0 <= jj < m ==> work@[jj] == free_after(avail, alloc, ord.to_set(), jj),
                forall|k: int| 0 <= k < n ==> (finish@[k] <==> ord.contains(k)),
                ord.no_duplicates(),
                forall|k: int| 0 <= k < ord.len() ==> 0 <= #[trigger] ord[k] < n,
                forall|k: int|
                    0 <= k < ord.len() ==> fits(needs[#[trigger] ord[k]], avail, alloc, ord.take(k).to_set()),
                !progressed ==> forall|k: int|
                    0 <= k < t && !finish@[k] ==> !fits(needs[k], avail, alloc, ord.to_set()),
            decreases n - t,
        {
            if !finish[t] {
                assert(need@[t as int]@ == needs[t as int]);
                if row_fits(&need[t], &work) {
                    let ghost old_set = ord.to_set();
                    let ghost old_ord = ord;
                    let ghost work0 = work@;
                    assert(allocation@[t as int]@ == alloc[t as int]);
                    let mut jj: usize = 0;
                    while jj < m
                        invariant
                            n == allocation@.len(),
                            m == available@.len(),
                            alloc == rows(allocation@),
                            well_shaped(avail, alloc, needs),
                            totals_fit(avail, alloc),
                            t < n,
                            alloc[t as int].len() == m,
                            allocation@[t as int]@ == alloc[t as int],
                            !old_set.contains(t as int),
                            jj <= m,
                            work@.len() == m,
                            work0.len() == m,
                            forall|k: int| 0 <= k < m ==> work0[k] == free_after(avail, alloc, old_set, k),
                            forall|k: int| 0 <= k < jj ==> work@[k] == work0[k] + alloc[t as int][k],
                            forall|k: int| jj <= k < m ==> work@[k] == work0[k],
                        decreases m - jj,
                    {
                        proof {
                            lemma_released_insert(alloc, old_set, t as int, jj as int, n as int);
                            lemma_released_mono(alloc, old_set.insert(t as int), Set::full(), jj as int, n as int);
                        }
                        assert(free_after(avail, alloc, Set::full(), jj as int) <= u64::MAX);
                        assert(old_set.insert(t as int).subset_of(Set::full()));
                        assert(work@[jj as int] == work0[jj as int]);
                        assert(work0[jj as int] == free_after(avail, alloc, old_set, jj as int));
                        assert(free_after(avail, alloc, old_set.insert(t as int), jj as int) == work@[jj as int] + alloc[t as int][jj as int]);
                        let add = allocation[t][jj];
                        assert(add == alloc[t as int][jj as int]);
                        work.set(jj, work[jj] + add);
                        jj = jj + 1;
                    }
                    proof {
                        lemma_count_true_set(finish@, t as int);
                        lemma_count_true_bound(finish@.update(t as int, true));
                        ord = ord.push(t as int);
                        assert(ord[old_ord.len() as int] == t as int);
                        assert forall|a: int| ord.contains(a) <==> old_set.insert(t as int).contains(a) by {
                            if ord.contains(a) && a != t as int {
                                let w = choose|w: int| 0 <= w < ord.len() && ord[w] == a;
                                assert(old_ord[w] == a);
                            }
                            if old_ord.contains(a) {
                                let w = choose|w: int| 0 <= w < old_ord.len() && old_ord[w] == a;
                                assert(ord[w] == a);
                            }
                        }
                        assert(ord.to_set() =~= old_set.insert(t as int));
                        assert forall|k: int| 0 <= k < m implies work@[k] == free_after(avail, alloc, ord.to_set(), k) by {
                            lemma_released_insert(alloc, old_set, t as int, k, n as int);
                        }
                        assert(ord.take(old_ord.len() as int) =~= old_ord);
                        assert forall|k: int| 0 <= k < old_ord.len() implies ord.take(k) =~= old_ord.take(k) by {}
                    }
                    finish.set(t, true);
                    done = done + 1;
                    progressed = true;
                }
            }
            t = t + 1;
        }
        proof {
            lemma_count_true_bound(finish@);
        }
    }
    proof {
        lemma_count_true_bound(finish@);
    }
    if done == n {
        proof {
            lemma_count_true_bound(finish@);
            assert(safe_order(avail, alloc, needs, ord));
        }
        true
    } else {
        proof {
            let u = choose|u: int| 0 <= u < n && !finish@[u];
            assert forall|o: Seq<int>| !safe_order(avail, alloc, needs, o) by {
                lemma_no_safe_order(avail, alloc, needs, ord.to_set(), o, u, 0);
            }
        }
        false
    }
}

/// No safe order exists once the threads outside `done` all need more than
/// what `done` frees, while some thread `u` lies outside `done`.
proof fn lemma_no_safe_order(
    avail: Seq<u64>,
    alloc: Seq<Seq<u64>>,
    need: Seq<Seq<u64>>,
    done: Set<int>,
    o: Seq<int>,
    u: int,
    k: int,
)
    requires
        0 <= u < need.len(),
        !done.contains(u),
        forall|i: int| 0 <= i < need.len() && !done.contains(i) ==> !fits(need[i], avail, alloc, done),
        0 <= k <= o.len(),
        forall|kk: int| 0 <= kk < k ==> done.contains(o[kk]),
    ensures
        !safe_order(avail, alloc, need, o),
    decreases o.len() - k,
{
    if !safe_order(avail, alloc, need, o) {
    } else if k == o.len() {
        assert(o.contains(u));
    } else if done.contains(o[k]) {
        lemma_no_safe_order(avail, alloc, need, done, o, u, k + 1);
    } else {
        let t = o[k];
        assert(fits(need[t], avail, alloc, o.take(k).to_set()));
        assert(o.take(k).to_set().subset_of(done));
        assert forall|j: int| 0 <= j < avail.len() implies need[t][j] <= free_after(avail, alloc, done, j) by {
            lemma_released_mono(alloc, o.take(k).to_set(), done, j, alloc.len() as int);
        }
    }
}

} // verus!
