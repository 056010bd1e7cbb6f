//! Banker's safety check over availability, allocation and need matrices.
use vstd::prelude::*;

verus! {

/// The rows of a matrix of vectors, as sequences.
pub open spec fn matrix(m: Seq<Vec<usize>>) -> Seq<Seq<usize>> {
    m.map_values(|row: Vec<usize>| row@)
}

/// Sum of column `c` over the first `n` rows whose entry in `mask` is set.
pub open spec fn masked_sum(m: Seq<Seq<usize>>, mask: Seq<bool>, c: int, n: int) -> int
    decreases n,
{
    if n <= 0 {
        0
    } else {
        masked_sum(m, mask, c, n - 1) + if mask[n - 1] {
            m[n - 1][c] as int
        } else {
            0
        }
    }
}

/// A mask that selects each of `n` rows.
pub open spec fn every_row(n: int) -> Seq<bool> {
    Seq::new(n as nat, |i: int| true)
}

/// Sum of column `c` over all rows of `m`.
pub open spec fn col_sum(m: Seq<Seq<usize>>, c: int) -> int {
    masked_sum(m, every_row(m.len() as int), c, m.len() as int)
}

/// The rows that `u` does not select.
pub open spec fn complement(u: Seq<bool>) -> Seq<bool> {
    Seq::new(u.len(), |i: int| !u[i])
}

/// Units of resource `r` free once every task in `done` has finished and returned what it holds.
pub open spec fn work_after(
    avail: Seq<usize>,
    alloc: Seq<Seq<usize>>,
    done: Seq<bool>,
    r: int,
) -> int {
    avail[r] + masked_sum(alloc, done, r, alloc.len() as int)
}

/// Task `t` can have all it still needs once the tasks in `done` have finished.
pub open spec fn can_finish(
    avail: Seq<usize>,
    alloc: Seq<Seq<usize>>,
    need: Seq<Seq<usize>>,
    done: Seq<bool>,
    t: int,
) -> bool {
    forall|r: int|
        0 <= r < avail.len() ==> need[t][r] as int <= #[trigger] work_after(avail, alloc, done, r)
}

/// `u` is a nonempty group of tasks none of which can finish, even once every task
/// outside the group has finished: each of them waits forever on the others.
pub open spec fn stuck_group(
    avail: Seq<usize>,
    alloc: Seq<Seq<usize>>,
    need: Seq<Seq<usize>>,
    u: Seq<bool>,
) -> bool {
    &&& u.len() == alloc.len()
    &&& exists|t: int| 0 <= t < u.len() && u[t]
    &&& forall|t: int|
        0 <= t < u.len() && #[trigger] u[t] ==> !can_finish(avail, alloc, need, complement(u), t)
}

/// A state is safe when no group of tasks is stuck, that is, when the tasks can be
/// run to completion one after another, each using what the earlier ones returned.
pub open spec fn is_safe(avail: Seq<usize>, alloc: Seq<Seq<usize>>, need: Seq<Seq<usize>>) -> bool {
    !exists|u: Seq<bool>| #[trigger] stuck_group(avail, alloc, need, u)
}

/// One row per task in both matrices, one column per resource in every row.
pub open spec fn shaped(avail: Seq<usize>, alloc: Seq<Seq<usize>>, need: Seq<Seq<usize>>) -> bool {
    &&& alloc.len() == need.len()
    &&& forall|t: int| 0 <= t < alloc.len() ==> (#[trigger] alloc[t]).len() == avail.len()
    &&& forall|t: int| 0 <= t < need.len() ==> (#[trigger] need[t]).len() == avail.len()
}

/// Number of set entries among the first `n` of `s`.
pub open spec fn count_set(s: Seq<bool>, n: int) -> int
    decreases n,
{
    if n <= 0 {
        0
    } else {
        count_set(s, n - 1) + if s[n - 1] {
            1int
        } else {
            0
        }
    }
}

proof fn lemma_count_set_bounds(s: Seq<bool>, n: int)
    requires
        0 <= n,
    ensures
        0 <= count_set(s, n) <= n,
    decreases n,
{
    if n > 0 {
        lemma_count_set_bounds(s, n - 1);
    }
}

proof fn lemma_count_set_update(s: Seq<bool>, i: int, n: int)
    requires
        0 <= i < n <= s.len(),
        !s[i],
    ensures
        count_set(s.update(i, true), n) == count_set(s, n) + 1,
    decreases n,
{
    if n - 1 > i {
        lemma_count_set_update(s, i, n - 1);
    } else {
        lemma_count_set_same(s, s.update(i, true), n - 1);
    }
}

proof fn lemma_count_set_same(a: Seq<bool>, b: Seq<bool>, n: int)
    requires
        forall|i: int| 0 <= i < n ==> a[i] == b[i],
    ensures
        count_set(a, n) == count_set(b, n),
    decreases n,
{
    if n > 0 {
        lemma_count_set_same(a, b, n - 1);
    }
}

proof fn lemma_count_set_full(s: Seq<bool>, n: int)
    requires
        0 <= n <= s.len(),
        count_set(s, n) == n,
    ensures
        forall|i: int| 0 <= i < n ==> s[i],
    decreases n,
{
    if n > 0 {
        lemma_count_set_bounds(s, n - 1);
        lemma_count_set_full(s, n - 1);
    }
}

/// Two masked sums agree when masks and column entries agree on the rows summed.
pub proof fn lemma_masked_sum_same(
    m1: Seq<Seq<usize>>,
    a: Seq<bool>,
    m2: Seq<Seq<usize>>,
    b: Seq<bool>,
    c: int,
    n: int,
)
    requires
        forall|i: int| 0 <= i < n ==> a[i] == b[i],
        forall|i: int| 0 <= i < n && #[trigger] a[i] ==> m1[i][c] == m2[i][c],
    ensures
        masked_sum(m1, a, c, n) == masked_sum(m2, b, c, n),
    decreases n,
{
    if n > 0 {
        lemma_masked_sum_same(m1, a, m2, b, c, n - 1);
    }
}

/// A masked sum grows with the mask.
pub proof fn lemma_masked_sum_mono(m: Seq<Seq<usize>>, a: Seq<bool>, b: Seq<bool>, c: int, n: int)
    requires
        forall|i: int| 0 <= i < n && #[trigger] a[i] ==> b[i],
    ensures
        masked_sum(m, a, c, n) <= masked_sum(m, b, c, n),
    decreases n,
{
    if n > 0 {
        lemma_masked_sum_mono(m, a, b, c, n - 1);
    }
}

/// Selecting one more row adds its entry.
pub proof fn lemma_masked_sum_select(m: Seq<Seq<usize>>, a: Seq<bool>, i: int, c: int, n: int)
    requires
        0 <= i < n <= a.len(),
        !a[i],
    ensures
        masked_sum(m, a.update(i, true), c, n) == masked_sum(m, a, c, n) + m[i][c],
    decreases n,
{
    if n - 1 > i {
        lemma_masked_sum_select(m, a, i, c, n - 1);
    } else {
        lemma_masked_sum_same(m, a.update(i, true), m, a, c, n - 1);
    }
}

/// Changing one entry of the column changes the sum by the same amount.
pub proof fn lemma_masked_sum_change(
    m1: Seq<Seq<usize>>,
    m2: Seq<Seq<usize>>,
    a: Seq<bool>,
    t: int,
    c: int,
    n: int,
)
    requires
        0 <= t < n <= a.len(),
        a[t],
        forall|i: int| 0 <= i < n && i != t ==> #[trigger] m1[i][c] == m2[i][c],
    ensures
        masked_sum(m2, a, c, n) == masked_sum(m1, a, c, n) + m2[t][c] - m1[t][c],
    decreases n,
{
    if n - 1 > t {
        lemma_masked_sum_change(m1, m2, a, t, c, n - 1);
    } else {
        lemma_masked_sum_same(m1, a, m2, a, c, n - 1);
    }
}

/// A column of zeros sums to zero.
pub proof fn lemma_masked_sum_zero(m: Seq<Seq<usize>>, a: Seq<bool>, c: int, n: int)
    requires
        forall|i: int| 0 <= i < n ==> #[trigger] m[i][c] == 0,
    ensures
        masked_sum(m, a, c, n) == 0,
    decreases n,
{
    if n > 0 {
        lemma_masked_sum_zero(m, a, c, n - 1);
    }
}

/// Whether every entry of `need_row` is at most the matching entry of `work`.
fn row_fits(need_row: &Vec<usize>, work: &Vec<usize>) -> (r: bool)
    requires
        need_row.len() == work.len(),
    ensures
        r == forall|j: int| 0 <= j < work.len() ==> need_row@[j] <= work@[j],
{
    let mut j: usize = 0;
    while j < work.len()
        invariant
            need_row.len() == work.len(),
            j <= work.len(),
            forall|k: int| 0 <= k < j ==> need_row@[k] <= work@[k],
        decreases work.len() - j,
    {
        if need_row[j] > work[j] {
            return false;
        }
        j = j + 1;
    }
    true
}

/// Adds `row` into `work`, entry by entry.
fn add_row(work: &mut Vec<usize>, row: &Vec<usize>)
    requires
        row.len() == old(work).len(),
        forall|j: int| 0 <= j < row.len() ==> old(work)@[j] + row@[j] <= usize::MAX,
    ensures
        final(work).len() == old(work).len(),
        forall|j: int| 0 <= j < row.len() ==> final(work)@[j] == old(work)@[j] + row@[j],
{
    let mut j: usize = 0;
    while j < row.len()
        invariant
            row.len() == work.len(),
            work.len() == old(work).len(),
            j <= row.len(),
            forall|k: int| 0 <= k < row.len() ==> old(work)@[k] + row@[k] <= usize::MAX,
            forall|k: int| 0 <= k < j ==> work@[k] == old(work)@[k] + row@[k],
            forall|k: int| j <= k < row.len() ==> work@[k] == old(work)@[k],
        decreases row.len() - j,
    {
        let v = work[j] + row[j];
        work.set(j, v);
        j = j + 1;
    }
}

/// A masked sum is never negative.
pub proof fn lemma_masked_sum_nonneg(m: Seq<Seq<usize>>, a: Seq<bool>, c: int, n: int)
    ensures
        0 <= masked_sum(m, a, c, n),
    decreases n,
{
    if n > 0 {
        lemma_masked_sum_nonneg(m, a, c, n - 1);
    }
}

/// A selected entry is at most the masked sum.
pub proof fn lemma_masked_sum_entry(m: Seq<Seq<usize>>, a: Seq<bool>, t: int, c: int, n: int)
    requires
        0 <= t < n,
        a[t],
    ensures
        m[t][c] <= masked_sum(m, a, c, n),
    decreases n,
{
    if n - 1 > t {
        lemma_masked_sum_entry(m, a, t, c, n - 1);
    } else {
        lemma_masked_sum_nonneg(m, a, c, n - 1);
    }
}

/// The tasks that appear in `s` before position `k`, as a mask over `n` tasks.
pub open spec fn done_before(s: Seq<int>, k: int, n: int) -> Seq<bool> {
    Seq::new(n as nat, |i: int| exists|j: int| 0 <= j < k && s[j] == i)
}

/// Task `t` is named somewhere in `s`.
pub open spec fn appears(s: Seq<int>, t: int) -> bool {
    exists|j: int| 0 <= j < s.len() && s[j] == t
}

/// `s` names every task, and the task at each position can have all it still needs
/// once the tasks at earlier positions have finished and returned what they hold.
pub open spec fn finishing_order(
    avail: Seq<usize>,
    alloc: Seq<Seq<usize>>,
    need: Seq<Seq<usize>>,
    s: Seq<int>,
) -> bool {
    &&& forall|j: int| 0 <= j < s.len() ==> 0 <= #[trigger] s[j] < alloc.len()
    &&& forall|t: int| 0 <= t < alloc.len() ==> #[trigger] appears(s, t)
    &&& forall|k: int|
        0 <= k < s.len() ==> can_finish(
            avail,
            alloc,
            need,
            done_before(s, k, alloc.len() as int),
            #[trigger] s[k],
        )
}

proof fn lemma_first_hit(u: Seq<bool>, s: Seq<int>, j: int)
    requires
        0 <= j < s.len(),
        0 <= s[j] < u.len(),
        u[s[j]],
    ensures
        exists|k: int|
            0 <= k <= j && 0 <= s[k] < u.len() && u[s[k]] && forall|k2: int|
                0 <= k2 < k && 0 <= s[k2] < u.len() ==> !u[#[trigger] s[k2]],
    decreases j,
{
    if exists|k2: int| 0 <= k2 < j && 0 <= s[k2] < u.len() && u[#[trigger] s[k2]] {
        let k2 = choose|k2: int| 0 <= k2 < j && 0 <= s[k2] < u.len() && u[#[trigger] s[k2]];
        lemma_first_hit(u, s, k2);
    } else {
        assert(0 <= j <= j && 0 <= s[j] < u.len() && u[s[j]] && forall|k2: int|
            0 <= k2 < j && 0 <= s[k2] < u.len() ==> !u[#[trigger] s[k2]]);
    }
}

/// With a finishing order, no group of tasks is stuck.
proof fn lemma_order_is_safe(
    avail: Seq<usize>,
    alloc: Seq<Seq<usize>>,
    need: Seq<Seq<usize>>,
    s: Seq<int>,
)
    requires
        finishing_order(avail, alloc, need, s),
    ensures
        is_safe(avail, alloc, need),
{
    let n = alloc.len() as int;
    assert forall|u: Seq<bool>| !#[trigger] stuck_group(avail, alloc, need, u) by {
        if stuck_group(avail, alloc, need, u) {
            let t0 = choose|t: int| 0 <= t < u.len() && u[t];
            assert(appears(s, t0));
            let j0 = choose|j: int| 0 <= j < s.len() && s[j] == t0;
            lemma_first_hit(u, s, j0);
            let k = choose|k: int|
                0 <= k <= j0 && 0 <= s[k] < u.len() && u[s[k]] && forall|k2: int|
                    0 <= k2 < k && 0 <= s[k2] < u.len() ==> !u[#[trigger] s[k2]];
            let f = done_before(s, k, n);
            assert forall|r: int| 0 <= r < avail.len() implies need[s[k]][r] as int
                <= #[trigger] work_after(avail, alloc, complement(u), r) by {
                assert(can_finish(avail, alloc, need, f, s[k]));
                assert(need[s[k]][r] <= work_after(avail, alloc, f, r));
                assert forall|i: int| 0 <= i < n && #[trigger] f[i] implies complement(u)[i] by {
                    let j = choose|j: int| 0 <= j < k && s[j] == i;
                    assert(0 <= s[j] < n);
                }
                lemma_masked_sum_mono(alloc, f, complement(u), r, n);
            }
            assert(can_finish(avail, alloc, need, complement(u), s[k]));
        }
    }
}

/// A safe state has a finishing order extending any valid prefix `s`.
proof fn lemma_safe_has_order(
    avail: Seq<usize>,
    alloc: Seq<Seq<usize>>,
    need: Seq<Seq<usize>>,
    s: Seq<int>,
)
    requires
        is_safe(avail, alloc, need),
        forall|j: int| 0 <= j < s.len() ==> 0 <= #[trigger] s[j] < alloc.len(),
        forall|k: int|
            0 <= k < s.len() ==> can_finish(
                avail,
                alloc,
                need,
                done_before(s, k, alloc.len() as int),
                #[trigger] s[k],
            ),
    ensures
        exists|o: Seq<int>| finishing_order(avail, alloc, need, o),
    decreases alloc.len() - count_set(done_before(s, s.len() as int, alloc.len() as int), alloc.len() as int),
{
    let n = alloc.len() as int;
    let f = done_before(s, s.len() as int, n);
    lemma_count_set_bounds(f, n);
    if forall|t: int| 0 <= t < n ==> #[trigger] f[t] {
        assert forall|t: int| 0 <= t < n implies #[trigger] appears(s, t) by {
            assert(f[t]);
        }
        assert(finishing_order(avail, alloc, need, s));
    } else {
        let u = complement(f);
        let t0 = choose|t: int| 0 <= t < n && !#[trigger] f[t];
        assert(u[t0]);
        assert(!stuck_group(avail, alloc, need, u));
        let t = choose|t: int| 0 <= t < u.len() && #[trigger] u[t] && can_finish(avail, alloc, need, complement(u), t);
        assert(complement(u) =~= f);
        let s2 = s.push(t);
        assert forall|k: int| 0 <= k < s2.len() implies can_finish(
            avail,
            alloc,
            need,
            done_before(s2, k, n),
            #[trigger] s2[k],
        ) by {
            assert(done_before(s2, k, n) =~= done_before(s, k, n)) by {
                assert forall|i: int| 0 <= i < n implies done_before(s2, k, n)[i] == done_before(s, k, n)[i] by {
                    if done_before(s2, k, n)[i] {
                        let j = choose|j: int| 0 <= j < k && s2[j] == i;
                        if j < s.len() {
                            assert(s[j] == i);
                        }
                    }
                    if done_before(s, k, n)[i] {
                        let j = choose|j: int| 0 <= j < k && s[j] == i;
                        assert(s2[j] == i);
                    }
                }
            }
            if k == s.len() {
                assert(done_before(s, k, n) == f);
            }
        }
        let f2 = done_before(s2, s2.len() as int, n);
        assert(f2 =~= f.update(t, true)) by {
            assert forall|i: int| 0 <= i < n implies f2[i] == f.update(t, true)[i] by {
                if f2[i] {
                    let j = choose|j: int| 0 <= j < s2.len() && s2[j] == i;
                    if j < s.len() {
                        assert(s[j] == i);
                    }
                }
                if f[i] {
                    let j = choose|j: int| 0 <= j < s.len() && s[j] == i;
                    assert(s2[j] == i);
                }
                if i == t {
                    assert(s2[s.len() as int] == t);
                }
            }
        }
        assert(!f[t]);
        lemma_count_set_update(f, t, n);
        lemma_count_set_bounds(f2, n);
        assert(count_set(f2, n) == count_set(f, n) + 1);
        lemma_safe_has_order(avail, alloc, need, s2);
    }
}

/// A state is safe exactly when some finishing order of all its tasks exists.
pub proof fn lemma_safe_iff_finishing_order(
    avail: Seq<usize>,
    alloc: Seq<Seq<usize>>,
    need: Seq<Seq<usize>>,
)
    ensures
        is_safe(avail, alloc, need) <==> exists|o: Seq<int>| finishing_order(avail, alloc, need, o),
{
    if is_safe(avail, alloc, need) {
        lemma_safe_has_order(avail, alloc, need, Seq::empty());
    }
    if exists|o: Seq<int>| finishing_order(avail, alloc, need, o) {
        let o = choose|o: Seq<int>| finishing_order(avail, alloc, need, o);
        lemma_order_is_safe(avail, alloc, need, o);
    }
}

/// No row selected: the sum is zero.
proof fn lemma_masked_sum_none(m: Seq<Seq<usize>>, a: Seq<bool>, c: int, n: int)
    requires
        forall|i: int| 0 <= i < n ==> !#[trigger] a[i],
    ensures
        masked_sum(m, a, c, n) == 0,
    decreases n,
{
    if n > 0 {
        lemma_masked_sum_none(m, a, c, n - 1);
    }
}

proof fn lemma_count_set_none(s: Seq<bool>, n: int)
    requires
        forall|i: int| 0 <= i < n ==> !#[trigger] s[i],
    ensures
        count_set(s, n) == 0,
    decreases n,
{
    if n > 0 {
        lemma_count_set_none(s, n - 1);
    }
}

/// Runs the Banker's safety algorithm: starting from the free units, repeatedly lets
/// any unfinished task whose need fits finish and return what it holds, until a pass
/// finishes nobody. The state is safe exactly when every task has finished.
pub fn safety_check(avail: &Vec<usize>, alloc: &Vec<Vec<usize>>, need: &Vec<Vec<usize>>) -> (safe:
    bool)
    requires
        shaped(avail@, matrix(alloc@), matrix(need@)),
        forall|r: int|
            0 <= r < avail.len() ==> avail@[r] + #[trigger] col_sum(matrix(alloc@), r)
                <= usize::MAX,
    ensures
        safe == is_safe(avail@, matrix(alloc@), matrix(need@)),
        safe == exists|o: Seq<int>| finishing_order(avail@, matrix(alloc@), matrix(need@), o),
{
    let ghost av = avail@;
    let ghost al = matrix(alloc@);
    let ghost ne = matrix(need@);
    let n = alloc.len();
    let m = avail.len();
    let mut work: Vec<usize> = Vec::new();
    let mut j: usize = 0;
    while j < m
        invariant
            j <= m,
            m == avail.len(),
            work.len() == j,
            forall|k: int| 0 <= k < j ==> work@[k] == avail@[k],
        decreases m - j,
    {
        work.push(avail[j]);
        j = j + 1;
    }
    let mut finish: Vec<bool> = Vec::new();
    let mut i: usize = 0;
    while i < n
        invariant
            i <= n,
            finish.len() == i,
            forall|k: int| 0 <= k < i ==> !finish@[k],
        decreases n - i,
    {
        finish.push(false);
        i = i + 1;
    }
    proof {
        assert forall|r: int| 0 <= r < m implies work@[r] == #[trigger] work_after(
            av,
            al,
            finish@,
            r,
        ) by {
            lemma_masked_sum_none(al, finish@, r, n as int);
        }
        lemma_count_set_none(finish@, n as int);
    }
    let mut done: usize = 0;
    loop
        invariant
            n == alloc.len(),
            n == need.len(),
            m == avail.len(),
            av == avail@,
            al == matrix(alloc@),
            ne == matrix(need@),
            shaped(av, al, ne),
            forall|r: int| 0 <= r < m ==> av[r] + #[trigger] col_sum(al, r) <= usize::MAX,
            work.len() == m,
            finish.len() == n,
            done == count_set(finish@, n as int),
            done <= n,
            forall|r: int| 0 <= r < m ==> work@[r] == #[trigger] work_after(av, al, finish@, r),
            forall|u: Seq<bool>|
                #[trigger] stuck_group(av, al, ne, u) ==> forall|t: int|
                    0 <= t < n && finish@[t] ==> !u[t],
        decreases n - done,
    {
        let ghost f0 = finish@;
        let ghost done0 = done;
        let mut progress = false;
        let mut i: usize = 0;
        while i < n
            invariant
                n == alloc.len(),
                n == need.len(),
                m == avail.len(),
                av == avail@,
                al == matrix(alloc@),
                ne == matrix(need@),
                shaped(av, al, ne),
                forall|r: int| 0 <= r < m ==> av[r] + #[trigger] col_sum(al, r) <= usize::MAX,
                i <= n,
                work.len() == m,
                finish.len() == n,
                done == count_set(finish@, n as int),
                done <= n,
                forall|r: int| 0 <= r < m ==> work@[r] == #[trigger] work_after(av, al, finish@, r),
                forall|u: Seq<bool>|
                    #[trigger] stuck_group(av, al, ne, u) ==> forall|t: int|
                        0 <= t < n && finish@[t] ==> !u[t],
                progress ==> done > done0,
                !progress ==> done == done0,
                !progress ==> finish@ == f0,
                !progress ==> forall|k: int|
                    0 <= k < i && !finish@[k] ==> !can_finish(av, al, ne, finish@, k),
            decreases n - i,
        {
            let ghost f = finish@;
            proof {
                assert(ne[i as int] == need@[i as int]@);
                assert(al[i as int] == alloc@[i as int]@);
                assert(ne[i as int].len() == m);
                assert(al[i as int].len() == m);
            }
            if !finish[i] && row_fits(&need[i], &work) {
                let ghost f1 = f.update(i as int, true);
                proof {
                    assert(can_finish(av, al, ne, f, i as int)) by {
                        assert forall|r: int| 0 <= r < m implies ne[i as int][r] as int
                            <= #[trigger] work_after(av, al, f, r) by {
                            assert(work@[r] == work_after(av, al, f, r));
                        }
                    }
                    assert forall|r: int| 0 <= r < m implies work@[r] + alloc@[i as int]@[r]
                        <= usize::MAX by {
                        lemma_masked_sum_select(al, f, i as int, r, n as int);
                        lemma_masked_sum_mono(al, f1, every_row(n as int), r, n as int);
                        assert(work_after(av, al, f, r) == work@[r]);
                        assert(av[r] + col_sum(al, r) <= usize::MAX);
                    }
                    lemma_count_set_update(f, i as int, n as int);
                    lemma_count_set_bounds(f1, n as int);
                    assert forall|u: Seq<bool>| #[trigger]
                        stuck_group(av, al, ne, u) implies forall|t: int|
                        0 <= t < n && f1[t] ==> !u[t] by {
                        if u[i as int] {
                            assert forall|t: int| 0 <= t < n && f[t] implies !u[t] by {}
                            assert forall|r: int| 0 <= r < m implies ne[i as int][r] as int
                                <= #[trigger] work_after(av, al, complement(u), r) by {
                                lemma_masked_sum_mono(al, f, complement(u), r, n as int);
                                assert(work_after(av, al, f, r) == work@[r]);
                            }
                            assert(can_finish(av, al, ne, complement(u), i as int));
                            assert(false);
                        }
                    }
                }
                let ghost w0 = work@;
                add_row(&mut work, &alloc[i]);
                finish.set(i, true);
                done = done + 1;
                progress = true;
                proof {
                    assert(finish@ == f1);
                    assert forall|r: int| 0 <= r < m implies work@[r] == #[trigger] work_after(
                        av,
                        al,
                        f1,
                        r,
                    ) by {
                        lemma_masked_sum_select(al, f, i as int, r, n as int);
                        assert(w0[r] == work_after(av, al, f, r));
                        assert(work@[r] == w0[r] + al[i as int][r]);
                    }
                }
            } else {
                proof {
                    if !f[i as int] {
                        assert(!can_finish(av, al, ne, f, i as int)) by {
                            let r = choose|r: int| 0 <= r < m && ne[i as int][r] > work@[r];
                            assert(work@[r] == work_after(av, al, f, r));
                        }
                    }
                }
            }
            i = i + 1;
        }
        if !progress {
            let mut all = true;
            let mut k: usize = 0;
            while k < n
                invariant
                    k <= n,
                    finish.len() == n,
                    all == forall|j: int| 0 <= j < k ==> finish@[j],
                decreases n - k,
            {
                if !finish[k] {
                    all = false;
                }
                k = k + 1;
            }
            proof {
                let f = finish@;
                if all {
                    assert forall|u: Seq<bool>| !#[trigger] stuck_group(av, al, ne, u) by {
                        if stuck_group(av, al, ne, u) {
                            let t = choose|t: int| 0 <= t < u.len() && u[t];
                            assert(f[t]);
                        }
                    }
                } else {
                    let u = complement(f);
                    assert(complement(u) =~= f);
                    let t = choose|t: int| 0 <= t < n && !f[t];
                    assert(u[t]);
                    assert(stuck_group(av, al, ne, u));
                }
            }
            proof {
                lemma_safe_iff_finishing_order(av, al, ne);
            }
            return all;
        }
    }
}

} // verus!
